//! The in-memory partition: per-series columnar buffers, the series
//! directory interning keys to ids, the inverted tag index over
//! compressed bitmaps, and the predicated read path.
//!
//! The partition assumes that points arrive in time ascending order per
//! series; buffers are append-only and are never re-sorted on write.

use vstd::prelude::*;

use crate::line_parser::{same_point_with_id, spec_index_pairs, Pair, ParseError, Point, PointType};
use crate::ordering::{lemma_str_lt_trans, lemma_str_trichotomy, str_compare, str_lt, KeyOrder};
use crate::partitioned_store::{ReadBatch, ReadValues};
use crate::predicate::{Node, Predicate};
use crate::roaring::{
    treemap_add, treemap_and, treemap_clone, treemap_new, treemap_or, treemap_set, treemap_to_vec,
};
use crate::types::{ReadPoint, SeriesDataType, StorageError, TimestampRange};

verus! {

/// The append-only sequence of points of one series.
#[derive(Debug, Clone, PartialEq, Eq)]
pub struct SeriesBuffer<T> {
    pub values: Vec<ReadPoint<T>>,
}

/// Index of the first point of `s` whose time is at or after `t`, or
/// `s.len()` if every point is earlier.
pub open spec fn first_at_or_after<T>(s: Seq<ReadPoint<T>>, t: i64) -> nat
    decreases s.len(),
{
    if s.len() == 0 {
        0
    } else if s[0].time >= t {
        0
    } else {
        (1 + first_at_or_after(s.skip(1), t)) as nat
    }
}

pub proof fn lemma_first_at_or_after<T>(s: Seq<ReadPoint<T>>, t: i64)
    ensures
        first_at_or_after(s, t) <= s.len(),
        first_at_or_after(s, t) < s.len() ==> s[first_at_or_after(s, t) as int].time >= t,
        forall|j: int| 0 <= j < first_at_or_after(s, t) ==> s[j].time < t,
    decreases s.len(),
{
    if s.len() == 0 {
    } else if s[0].time >= t {
    } else {
        lemma_first_at_or_after(s.skip(1), t);
        assert forall|j: int| 0 <= j < first_at_or_after(s, t) implies s[j].time < t by {
            if j > 0 {
                assert(s.skip(1)[j - 1] == s[j]);
            }
        };
        if first_at_or_after(s, t) < s.len() {
            assert(s.skip(1)[first_at_or_after(s, t) - 1] == s[first_at_or_after(s, t) as int]);
        }
    }
}

/// The times of `s` are non-decreasing in buffer order.
pub open spec fn times_sorted<T>(s: Seq<ReadPoint<T>>) -> bool {
    forall|i: int, j: int| 0 <= i <= j < s.len() ==> s[i].time <= s[j].time
}

impl<T: Copy> SeriesBuffer<T> {
    /// The slice of the buffer between the first point at or after
    /// `range.start` and the first point at or after `range.end`, in
    /// buffer order; empty when that window is empty or inverted.
    ///
    /// On a buffer whose times are sorted this is exactly the points
    /// with `range.start <= time < range.end` (`lemma_read_range`).
    pub fn read(&self, range: &TimestampRange) -> (r: Vec<ReadPoint<T>>)
        ensures
            ({
                let lo = first_at_or_after(self.values@, range.start);
                let hi = first_at_or_after(self.values@, range.end);
                if lo < self.values@.len() && lo < hi {
                    r@ == self.values@.subrange(lo as int, hi as int)
                } else {
                    r@ == Seq::<ReadPoint<T>>::empty()
                }
            }),
    {
        proof {
            lemma_first_at_or_after(self.values@, range.start);
            lemma_first_at_or_after(self.values@, range.end);
        }
        let n = self.values.len();
        let lo = self.position_at_or_after(range.start);
        if lo >= n {
            return Vec::new();
        }
        let hi = self.position_at_or_after(range.end);
        let mut r: Vec<ReadPoint<T>> = Vec::new();
        if hi <= lo {
            assert(r@ =~= Seq::<ReadPoint<T>>::empty());
            return r;
        }
        let mut i: usize = lo;
        while i < hi
            invariant
                lo <= i <= hi <= n,
                n == self.values@.len(),
                r@ =~= self.values@.subrange(lo as int, i as int),
            decreases hi - i,
        {
            r.push(self.values[i]);
            assert(r@ =~= self.values@.subrange(lo as int, i + 1));
            i = i + 1;
        }
        r
    }

    /// Index of the first point at or after `t`.
    fn position_at_or_after(&self, t: i64) -> (i: usize)
        ensures
            i == first_at_or_after(self.values@, t),
            i <= self.values@.len(),
    {
        proof {
            lemma_first_at_or_after(self.values@, t);
        }
        let n = self.values.len();
        let mut i: usize = 0;
        while i < n
            invariant
                i <= n,
                n == self.values@.len(),
                first_at_or_after(self.values@, t) <= self.values@.len(),
                first_at_or_after(self.values@, t) < self.values@.len()
                    ==> self.values@[first_at_or_after(self.values@, t) as int].time >= t,
                forall|j: int|
                    0 <= j < first_at_or_after(self.values@, t) ==> self.values@[j].time < t,
                forall|j: int| 0 <= j < i ==> self.values@[j].time < t,
            decreases n - i,
        {
            if self.values[i].time >= t {
                return i;
            }
            i = i + 1;
        }
        i
    }
}

/// On a time-sorted buffer, the window `read` returns holds exactly the
/// points within `[range.start, range.end)`.
pub proof fn lemma_read_range<T>(s: Seq<ReadPoint<T>>, range: TimestampRange)
    requires
        times_sorted(s),
    ensures
        ({
            let lo = first_at_or_after(s, range.start);
            let hi = first_at_or_after(s, range.end);
            forall|i: int|
                #![trigger s[i]]
                0 <= i < s.len() ==> ((lo <= i < hi) <==> (range.start <= s[i].time
                    < range.end))
        }),
{
    lemma_first_at_or_after(s, range.start);
    lemma_first_at_or_after(s, range.end);
    let lo = first_at_or_after(s, range.start);
    let hi = first_at_or_after(s, range.end);
    assert forall|i: int| #![trigger s[i]] 0 <= i < s.len() implies ((lo <= i < hi) <==> (
    range.start <= s[i].time < range.end)) by {
        if lo <= i < hi {
            assert(s[lo as int].time >= range.start);
            assert(s[lo as int].time <= s[i].time);
        }
        if range.start <= s[i].time < range.end {
            if i < lo {
                assert(s[i].time < range.start);
            }
            if i >= hi {
                if hi < s.len() {
                    assert(s[hi as int].time >= range.end);
                    assert(s[hi as int].time <= s[i].time);
                }
            }
        }
    };
}

// ---------------------------------------------------------------------------
// Association-list helpers. The partition's maps are small association
// vectors; each lookup finds the first (and, by well-formedness, only)
// entry with the wanted key.

/// Index of the first entry of `s` keyed by the id `k`, or `s.len()`.
pub open spec fn id_index<V>(s: Seq<(u64, V)>, k: u64) -> nat
    decreases s.len(),
{
    if s.len() == 0 {
        0
    } else if s[0].0 == k {
        0
    } else {
        (1 + id_index(s.skip(1), k)) as nat
    }
}

pub proof fn lemma_id_index<V>(s: Seq<(u64, V)>, k: u64)
    ensures
        id_index(s, k) <= s.len(),
        id_index(s, k) < s.len() ==> s[id_index(s, k) as int].0 == k,
        forall|j: int| 0 <= j < id_index(s, k) ==> (#[trigger] s[j]).0 != k,
    decreases s.len(),
{
    if s.len() == 0 {
    } else if s[0].0 == k {
    } else {
        lemma_id_index(s.skip(1), k);
        assert forall|j: int| 0 <= j < id_index(s, k) implies (#[trigger] s[j]).0 != k by {
            if j > 0 {
                assert(s.skip(1)[j - 1] == s[j]);
            }
        };
        if id_index(s, k) < s.len() {
            assert(s.skip(1)[id_index(s, k) - 1] == s[id_index(s, k) as int]);
        }
    }
}

/// Index of the first entry of `s` keyed by the string `k`, or `s.len()`.
pub open spec fn str_index<V>(s: Seq<(String, V)>, k: Seq<char>) -> nat
    decreases s.len(),
{
    if s.len() == 0 {
        0
    } else if s[0].0@ == k {
        0
    } else {
        (1 + str_index(s.skip(1), k)) as nat
    }
}

pub proof fn lemma_str_index<V>(s: Seq<(String, V)>, k: Seq<char>)
    ensures
        str_index(s, k) <= s.len(),
        str_index(s, k) < s.len() ==> s[str_index(s, k) as int].0@ == k,
        forall|j: int| 0 <= j < str_index(s, k) ==> (#[trigger] s[j]).0@ != k,
    decreases s.len(),
{
    if s.len() == 0 {
    } else if s[0].0@ == k {
    } else {
        lemma_str_index(s.skip(1), k);
        assert forall|j: int| 0 <= j < str_index(s, k) implies (#[trigger] s[j]).0@ != k by {
            if j > 0 {
                assert(s.skip(1)[j - 1] == s[j]);
            }
        };
        if str_index(s, k) < s.len() {
            assert(s.skip(1)[str_index(s, k) - 1] == s[str_index(s, k) as int]);
        }
    }
}

/// Index of the first entry of `s` keyed by the byte string `k`, or
/// `s.len()`.
pub open spec fn bytes_index<V>(s: Seq<(Vec<u8>, V)>, k: Seq<u8>) -> nat
    decreases s.len(),
{
    if s.len() == 0 {
        0
    } else if s[0].0@ == k {
        0
    } else {
        (1 + bytes_index(s.skip(1), k)) as nat
    }
}

pub proof fn lemma_bytes_index<V>(s: Seq<(Vec<u8>, V)>, k: Seq<u8>)
    ensures
        bytes_index(s, k) <= s.len(),
        bytes_index(s, k) < s.len() ==> s[bytes_index(s, k) as int].0@ == k,
        forall|j: int| 0 <= j < bytes_index(s, k) ==> (#[trigger] s[j]).0@ != k,
    decreases s.len(),
{
    if s.len() == 0 {
    } else if s[0].0@ == k {
    } else {
        lemma_bytes_index(s.skip(1), k);
        assert forall|j: int| 0 <= j < bytes_index(s, k) implies (#[trigger] s[j]).0@ != k by {
            if j > 0 {
                assert(s.skip(1)[j - 1] == s[j]);
            }
        };
        if bytes_index(s, k) < s.len() {
            assert(s.skip(1)[bytes_index(s, k) - 1] == s[bytes_index(s, k) as int]);
        }
    }
}

fn find_id_entry<V>(v: &Vec<(u64, V)>, k: u64) -> (i: usize)
    ensures
        i == id_index(v@, k),
        i <= v@.len(),
{
    proof {
        lemma_id_index(v@, k);
    }
    let n = v.len();
    let mut i: usize = 0;
    while i < n
        invariant
            i <= n,
            n == v@.len(),
            id_index(v@, k) <= v@.len(),
            id_index(v@, k) < v@.len() ==> v@[id_index(v@, k) as int].0 == k,
            forall|j: int| 0 <= j < id_index(v@, k) ==> (#[trigger] v@[j]).0 != k,
            forall|j: int| 0 <= j < i ==> (#[trigger] v@[j]).0 != k,
        decreases n - i,
    {
        if v[i].0 == k {
            return i;
        }
        i = i + 1;
    }
    i
}

fn find_str_entry<V>(v: &Vec<(String, V)>, k: &str) -> (i: usize)
    ensures
        i == str_index(v@, k@),
        i <= v@.len(),
{
    proof {
        lemma_str_index(v@, k@);
    }
    let n = v.len();
    let mut i: usize = 0;
    while i < n
        invariant
            i <= n,
            n == v@.len(),
            str_index(v@, k@) <= v@.len(),
            str_index(v@, k@) < v@.len() ==> v@[str_index(v@, k@) as int].0@ == k@,
            forall|j: int| 0 <= j < str_index(v@, k@) ==> (#[trigger] v@[j]).0@ != k@,
            forall|j: int| 0 <= j < i ==> (#[trigger] v@[j]).0@ != k@,
        decreases n - i,
    {
        if str_compare(v[i].0.as_str(), k) == KeyOrder::Equal {
            return i;
        }
        i = i + 1;
    }
    i
}

fn bytes_eq(a: &Vec<u8>, b: &Vec<u8>) -> (r: bool)
    ensures
        r <==> a@ == b@,
{
    let n = a.len();
    if n != b.len() {
        return false;
    }
    let mut i: usize = 0;
    while i < n
        invariant
            i <= n,
            n == a@.len(),
            n == b@.len(),
            forall|j: int| 0 <= j < i ==> a@[j] == b@[j],
        decreases n - i,
    {
        if a[i] != b[i] {
            return false;
        }
        i = i + 1;
    }
    proof {
        assert(a@ =~= b@);
    }
    true
}

fn find_bytes_entry<V>(v: &Vec<(Vec<u8>, V)>, k: &Vec<u8>) -> (i: usize)
    ensures
        i == bytes_index(v@, k@),
        i <= v@.len(),
{
    proof {
        lemma_bytes_index(v@, k@);
    }
    let n = v.len();
    let mut i: usize = 0;
    while i < n
        invariant
            i <= n,
            n == v@.len(),
            bytes_index(v@, k@) <= v@.len(),
            bytes_index(v@, k@) < v@.len() ==> v@[bytes_index(v@, k@) as int].0@ == k@,
            forall|j: int| 0 <= j < bytes_index(v@, k@) ==> (#[trigger] v@[j]).0@ != k@,
            forall|j: int| 0 <= j < i ==> (#[trigger] v@[j]).0@ != k@,
        decreases n - i,
    {
        if bytes_eq(&v[i].0, k) {
            return i;
        }
        i = i + 1;
    }
    i
}

/// Addition clamped at `usize::MAX`, for the advisory size counters.
fn sat_add(a: usize, b: usize) -> (r: usize)
    ensures
        r == if a + b <= usize::MAX { a + b } else { usize::MAX as int },
{
    if a <= usize::MAX - b {
        a + b
    } else {
        usize::MAX
    }
}

/// The composite posting-list key for a `(tag key, tag value)` pair:
/// the UTF-8 bytes of the key, a zero byte, the UTF-8 bytes of the
/// value. The separator byte occurs in neither side, so the encoding is
/// injective.
pub open spec fn spec_list_key(k: Seq<char>, v: Seq<char>) -> Seq<u8> {
    vstd::utf8::encode_utf8(k) + seq![0u8] + vstd::utf8::encode_utf8(v)
}

/// Builds the composite posting-list key for a `(tag key, tag value)`
/// pair.
pub fn list_key(key: &str, value: &str) -> (r: Vec<u8>)
    ensures
        r@ == spec_list_key(key@, value@),
{
    let mut r = key.as_bytes_vec();
    r.push(0u8);
    let vb = value.as_bytes();
    r.extend_from_slice(vb);
    proof {
        assert(r@ =~= spec_list_key(key@, value@));
    }
    r
}

// ---------------------------------------------------------------------------
// Per-series typed storage.

/// No id keys two entries.
pub open spec fn ids_unique<V>(s: Seq<(u64, V)>) -> bool {
    forall|i: int, j: int| 0 <= i < j < s.len() ==> (#[trigger] s[i]).0 != (#[trigger] s[j]).0
}

/// The typed buffers of every series, keyed by series id, with the
/// advisory byte-size counter.
#[derive(Debug, Clone, PartialEq, Eq)]
pub struct SeriesData {
    pub current_size: usize,
    pub i64_series: Vec<(u64, SeriesBuffer<i64>)>,
    pub f64_series: Vec<(u64, SeriesBuffer<u64>)>,
}

/// Bytes the size counter charges for one stored point.
pub open spec fn point_cost() -> int {
    16
}

/// `post` is `pre` with `rp` appended to the buffer of series `id`,
/// the buffer being created if `id` had none; every other entry is
/// kept.
pub open spec fn buffer_appended<T>(
    pre: Seq<(u64, SeriesBuffer<T>)>,
    post: Seq<(u64, SeriesBuffer<T>)>,
    id: u64,
    rp: ReadPoint<T>,
) -> bool {
    let bi = id_index(pre, id);
    if bi < pre.len() {
        &&& post.len() == pre.len()
        &&& post[bi as int].0 == id
        &&& post[bi as int].1.values@ == pre[bi as int].1.values@.push(rp)
        &&& forall|j: int| 0 <= j < pre.len() && j != bi ==> post[j] == pre[j]
    } else {
        &&& post.len() == pre.len() + 1
        &&& post.take(pre.len() as int) == pre
        &&& post[pre.len() as int].0 == id
        &&& post[pre.len() as int].1.values@ == seq![rp]
    }
}

/// Appends `rp` to the buffer of series `id`, creating it on first use.
fn append_point<T: Copy>(buffers: &mut Vec<(u64, SeriesBuffer<T>)>, id: u64, rp: ReadPoint<T>)
    ensures
        buffer_appended(old(buffers)@, final(buffers)@, id, rp),
        ids_unique(old(buffers)@) ==> ids_unique(final(buffers)@),
{
    proof {
        lemma_id_index(buffers@, id);
    }
    let bi = find_id_entry(buffers, id);
    if bi < buffers.len() {
        buffers[bi].1.values.push(rp);
    } else {
        let mut values: Vec<ReadPoint<T>> = Vec::new();
        values.push(rp);
        buffers.push((id, SeriesBuffer { values }));
        proof {
            assert(final(buffers)@.take(old(buffers)@.len() as int) =~= old(buffers)@);
        }
    }
}

impl SeriesData {
    /// Ids key at most one buffer in each typed store.
    pub open spec fn wf(self) -> bool {
        ids_unique(self.i64_series@) && ids_unique(self.f64_series@)
    }

    /// The stored points of the integer-typed series `id`.
    pub open spec fn spec_i64(self, id: u64) -> Option<Seq<ReadPoint<i64>>> {
        let i = id_index(self.i64_series@, id);
        if i < self.i64_series@.len() {
            Some(self.i64_series@[i as int].1.values@)
        } else {
            None
        }
    }

    /// The stored points of the float-typed series `id`.
    pub open spec fn spec_f64(self, id: u64) -> Option<Seq<ReadPoint<u64>>> {
        let i = id_index(self.f64_series@, id);
        if i < self.f64_series@.len() {
            Some(self.f64_series@[i as int].1.values@)
        } else {
            None
        }
    }
}

impl Point<i64> {
    /// Stores the point under its assigned id and charges the size
    /// counter.
    pub fn write(&self, series_data: &mut SeriesData)
        requires
            self.series_id is Some,
        ensures
            buffer_appended(
                old(series_data).i64_series@,
                final(series_data).i64_series@,
                self.series_id.unwrap(),
                ReadPoint { time: self.time, value: self.value },
            ),
            final(series_data).f64_series == old(series_data).f64_series,
            final(series_data).current_size == if old(series_data).current_size + point_cost()
                <= usize::MAX {
                old(series_data).current_size + point_cost()
            } else {
                usize::MAX as int
            },
            old(series_data).wf() ==> final(series_data).wf(),
    {
        let point = ReadPoint { time: self.time, value: self.value };
        series_data.current_size = sat_add(series_data.current_size, 16);
        let id = match self.series_id {
            Some(id) => id,
            None => {
                proof {
                    assert(false);
                }
                0
            },
        };
        append_point(&mut series_data.i64_series, id, point);
    }
}

impl Point<u64> {
    /// Stores the float-typed point (as its bit pattern) under its
    /// assigned id and charges the size counter.
    pub fn write(&self, series_data: &mut SeriesData)
        requires
            self.series_id is Some,
        ensures
            buffer_appended(
                old(series_data).f64_series@,
                final(series_data).f64_series@,
                self.series_id.unwrap(),
                ReadPoint { time: self.time, value: self.value },
            ),
            final(series_data).i64_series == old(series_data).i64_series,
            final(series_data).current_size == if old(series_data).current_size + point_cost()
                <= usize::MAX {
                old(series_data).current_size + point_cost()
            } else {
                usize::MAX as int
            },
            old(series_data).wf() ==> final(series_data).wf(),
    {
        let point = ReadPoint { time: self.time, value: self.value };
        series_data.current_size = sat_add(series_data.current_size, 16);
        let id = match self.series_id {
            Some(id) => id,
            None => {
                proof {
                    assert(false);
                }
                0
            },
        };
        append_point(&mut series_data.f64_series, id, point);
    }
}

impl PointType {
    /// Stores the point into the buffer of its type.
    pub fn write(&self, series_data: &mut SeriesData)
        requires
            self.spec_series_id() is Some,
        ensures
            match self {
                PointType::I64(p) => buffer_appended(
                    old(series_data).i64_series@,
                    final(series_data).i64_series@,
                    p.series_id.unwrap(),
                    ReadPoint { time: p.time, value: p.value },
                ) && final(series_data).f64_series == old(series_data).f64_series,
                PointType::F64(p) => buffer_appended(
                    old(series_data).f64_series@,
                    final(series_data).f64_series@,
                    p.series_id.unwrap(),
                    ReadPoint { time: p.time, value: p.value },
                ) && final(series_data).i64_series == old(series_data).i64_series,
            },
            final(series_data).current_size == if old(series_data).current_size + point_cost()
                <= usize::MAX {
                old(series_data).current_size + point_cost()
            } else {
                usize::MAX as int
            },
            old(series_data).wf() ==> final(series_data).wf(),
    {
        match self {
            PointType::I64(inner) => inner.write(series_data),
            PointType::F64(inner) => inner.write(series_data),
        }
    }
}

// ---------------------------------------------------------------------------
// The tag dictionary: an ordered map from tag key to the ordered set of
// observed tag values.

/// Strictly ascending in `str_lt`.
pub open spec fn strs_sorted(s: Seq<String>) -> bool {
    forall|i: int, j: int| 0 <= i < j < s.len() ==> str_lt((#[trigger] s[i])@, (#[trigger] s[j])@)
}

/// Dictionary keys strictly ascending, every value list strictly
/// ascending.
pub open spec fn dict_sorted(d: Seq<(String, Vec<String>)>) -> bool {
    &&& forall|i: int, j: int|
        0 <= i < j < d.len() ==> str_lt((#[trigger] d[i]).0@, (#[trigger] d[j]).0@)
    &&& forall|i: int| 0 <= i < d.len() ==> strs_sorted((#[trigger] d[i]).1@)
}

/// Every dictionary entry holds at least one value.
pub open spec fn dict_entries_nonempty(d: Seq<(String, Vec<String>)>) -> bool {
    forall|i: int| 0 <= i < d.len() ==> (#[trigger] d[i]).1@.len() > 0
}

/// The set of string views held by `s`.
pub open spec fn str_set(s: Seq<String>) -> Set<Seq<char>> {
    Set::new(|x: Seq<char>| exists|j: int| 0 <= j < s.len() && (#[trigger] s[j])@ == x)
}

/// The set of values the dictionary holds under `tk`.
pub open spec fn dict_set(d: Seq<(String, Vec<String>)>, tk: Seq<char>) -> Set<Seq<char>> {
    Set::new(
        |x: Seq<char>|
            exists|i: int, j: int|
                0 <= i < d.len() && (#[trigger] d[i]).0@ == tk && 0 <= j < d[i].1@.len() && (
                #[trigger] d[i].1@[j])@ == x,
    )
}

/// Inserts `v` into the strictly sorted list `values`, keeping it
/// sorted; a value already present is kept once.
fn sorted_insert_value(values: &mut Vec<String>, v: &String)
    requires
        strs_sorted(old(values)@),
    ensures
        strs_sorted(final(values)@),
        str_set(final(values)@) == str_set(old(values)@).insert(v@),
        final(values)@.len() >= old(values)@.len(),
{
    let n = values.len();
    let mut p: usize = 0;
    while p < n
        invariant_except_break
            p <= n,
            n == values@.len(),
            strs_sorted(values@),
            forall|j: int| 0 <= j < p ==> str_lt((#[trigger] values@[j])@, v@),
        ensures
            p <= n,
            n == values@.len(),
            strs_sorted(values@),
            forall|j: int| 0 <= j < p ==> str_lt((#[trigger] values@[j])@, v@),
            p < n ==> str_lt(v@, values@[p as int]@),
        decreases n - p,
    {
        let c = str_compare(values[p].as_str(), v.as_str());
        if c == KeyOrder::Equal {
            proof {
                assert(str_set(values@).contains(v@));
                assert(str_set(values@) =~= str_set(values@).insert(v@));
            }
            return ;
        }
        if c == KeyOrder::Greater {
            break ;
        }
        p = p + 1;
    }
    let ghost pre = values@;
    let vc = v.clone();
    let ghost vcg = vc;
    values.insert(p, vc);
    proof {
        pre.insert_ensures(p as int, vcg);
        assert(values@[p as int]@ == v@);
        assert forall|i: int, j: int| 0 <= i < j < values@.len() implies str_lt(
            (#[trigger] values@[i])@,
            (#[trigger] values@[j])@,
        ) by {
            if i < p && j == p {
            } else if i == p && j > p {
                assert(values@[j] == pre[j - 1]);
                if p < pre.len() {
                    if j - 1 > p {
                        lemma_str_lt_trans(v@, pre[p as int]@, pre[j - 1]@);
                    }
                }
            } else if i < p && j > p {
                assert(values@[i] == pre[i]);
                assert(values@[j] == pre[j - 1]);
                if i < j - 1 {
                } else {
                    assert(i == p - 1 && j == p + 1);
                    lemma_str_lt_trans(pre[i]@, v@, pre[j - 1]@);
                }
            } else if i < p && j < p {
            } else {
                assert(values@[i] == pre[i - 1] && values@[j] == pre[j - 1]);
            }
        };
        assert(str_set(values@) =~= str_set(pre).insert(v@)) by {
            assert forall|x: Seq<char>| str_set(values@).contains(x) implies str_set(
                pre,
            ).insert(v@).contains(x) by {
                let j = choose|j: int| 0 <= j < values@.len() && (#[trigger] values@[j])@ == x;
                if j < p {
                    assert(pre[j]@ == x);
                } else if j > p {
                    assert(pre[j - 1]@ == x);
                }
            };
            assert forall|x: Seq<char>| str_set(pre).insert(v@).contains(x) implies str_set(
                values@,
            ).contains(x) by {
                if x == v@ {
                    assert(values@[p as int]@ == x);
                } else {
                    let j = choose|j: int| 0 <= j < pre.len() && (#[trigger] pre[j])@ == x;
                    if j < p {
                        assert(values@[j]@ == x);
                    } else {
                        assert(values@[j + 1]@ == x);
                    }
                }
            };
        };
    }
}

/// Records `v` under `k` in the tag dictionary, keeping keys and value
/// lists sorted.
fn dict_insert(dict: &mut Vec<(String, Vec<String>)>, k: &String, v: &String)
    requires
        dict_sorted(old(dict)@),
        dict_entries_nonempty(old(dict)@),
    ensures
        dict_sorted(final(dict)@),
        dict_entries_nonempty(final(dict)@),
        forall|tk: Seq<char>|
            #[trigger] dict_set(final(dict)@, tk) == if tk == k@ {
                dict_set(old(dict)@, tk).insert(v@)
            } else {
                dict_set(old(dict)@, tk)
            },
{
    let n = dict.len();
    let mut p: usize = 0;
    while p < n
        invariant_except_break
            p <= n,
            n == dict@.len(),
            dict@ == old(dict)@,
            dict_sorted(dict@),
            dict_entries_nonempty(dict@),
            forall|j: int| 0 <= j < p ==> str_lt((#[trigger] dict@[j]).0@, k@),
        ensures
            p <= n,
            n == dict@.len(),
            dict@ == old(dict)@,
            dict_sorted(dict@),
            dict_entries_nonempty(dict@),
            forall|j: int| 0 <= j < p ==> str_lt((#[trigger] dict@[j]).0@, k@),
            p < n ==> str_lt(k@, dict@[p as int].0@),
        decreases n - p,
    {
        let c = str_compare(dict[p].0.as_str(), k.as_str());
        if c == KeyOrder::Equal {
            let ghost pre = dict@;
            sorted_insert_value(&mut dict[p].1, v);
            proof {
                assert(dict@ == pre.update(p as int, dict@[p as int]));
                assert(dict@[p as int].0 == pre[p as int].0);
                assert(strs_sorted(dict@[p as int].1@));
                assert(str_set(dict@[p as int].1@) == str_set(pre[p as int].1@).insert(v@));
                assert(dict@.len() == pre.len());
                assert forall|i: int| 0 <= i < dict@.len() implies (#[trigger] dict@[i]).0
                    == pre[i].0 by {
                    if i != p {
                        assert(dict@[i] == pre[i]);
                    }
                };
                assert forall|i: int| 0 <= i < dict@.len() implies strs_sorted(
                    (#[trigger] dict@[i]).1@,
                ) by {
                    if i != p {
                        assert(dict@[i] == pre[i]);
                    }
                };
                assert forall|tk: Seq<char>| #[trigger] dict_set(dict@, tk) == (if tk == k@ {
                    dict_set(pre, tk).insert(v@)
                } else {
                    dict_set(pre, tk)
                }) by {
                    dict_entry_update_set(pre, dict@, p as int, tk, k@, v@);
                };
            }
            return ;
        }
        if c == KeyOrder::Greater {
            break ;
        }
        p = p + 1;
    }
    let mut values: Vec<String> = Vec::new();
    values.push(v.clone());
    let ghost pre = dict@;
    let entry = (k.clone(), values);
    let ghost entryg = entry;
    dict.insert(p, entry);
    proof {
        pre.insert_ensures(p as int, entryg);
        assert forall|i: int| 0 <= i < pre.len() implies (#[trigger] pre[i]).0@ != k@ by {
            if i < p {
                lemma_str_trichotomy(pre[i].0@, k@);
            } else if i == p {
                lemma_str_trichotomy(k@, pre[i].0@);
            } else {
                lemma_str_lt_trans(k@, pre[p as int].0@, pre[i].0@);
                lemma_str_trichotomy(k@, pre[i].0@);
            }
        };
        if dict_sorted(pre) {
            assert forall|i: int, j: int| 0 <= i < j < dict@.len() implies str_lt(
                (#[trigger] dict@[i]).0@,
                (#[trigger] dict@[j]).0@,
            ) by {
                if i < p && j == p {
                } else if i == p && j > p {
                    assert(dict@[j] == pre[j - 1]);
                    if j - 1 > p {
                        lemma_str_lt_trans(k@, pre[p as int].0@, pre[j - 1].0@);
                    }
                } else if i < p && j > p {
                    assert(dict@[i] == pre[i] && dict@[j] == pre[j - 1]);
                    if i == j - 1 {
                        lemma_str_lt_trans(pre[i].0@, k@, pre[j - 1].0@);
                    }
                } else if p < i {
                    assert(dict@[i] == pre[i - 1] && dict@[j] == pre[j - 1]);
                }
            };
            assert forall|i: int| 0 <= i < dict@.len() implies strs_sorted(
                (#[trigger] dict@[i]).1@,
            ) by {
                if i < p {
                    assert(dict@[i] == pre[i]);
                } else if i > p {
                    assert(dict@[i] == pre[i - 1]);
                }
            };
            assert forall|tk: Seq<char>| #[trigger] dict_set(dict@, tk) == (if tk == k@ {
                dict_set(pre, tk).insert(v@)
            } else {
                dict_set(pre, tk)
            }) by {
                dict_fresh_insert_set(pre, dict@, p as int, tk, k@, v@);
            };
        }
    }
}

/// After updating entry `p`'s value list, the value set under each tag
/// key changes exactly by the inserted value under that entry's key.
proof fn dict_entry_update_set(
    pre: Seq<(String, Vec<String>)>,
    post: Seq<(String, Vec<String>)>,
    p: int,
    tk: Seq<char>,
    k: Seq<char>,
    v: Seq<char>,
)
    requires
        dict_sorted(pre),
        0 <= p < pre.len(),
        post.len() == pre.len(),
        pre[p].0@ == k,
        post[p].0@ == k,
        forall|j: int| 0 <= j < pre.len() && j != p ==> post[j] == pre[j],
        str_set(post[p].1@) == str_set(pre[p].1@).insert(v),
    ensures
        dict_set(post, tk) == if tk == k {
            dict_set(pre, tk).insert(v)
        } else {
            dict_set(pre, tk)
        },
{
    if tk == k {
        assert(dict_set(post, tk) =~= dict_set(pre, tk).insert(v)) by {
            assert forall|x: Seq<char>| dict_set(post, tk).contains(x) implies dict_set(
                pre,
                tk,
            ).insert(v).contains(x) by {
                let (i, j) = choose|i: int, j: int|
                    #![trigger post[i].1@[j]]
                    0 <= i < post.len() && post[i].0@ == tk && 0 <= j
                        < post[i].1@.len() && post[i].1@[j]@ == x;
                if i == p {
                    assert(str_set(post[p].1@).contains(x));
                    if x != v {
                        assert(str_set(pre[p].1@).contains(x));
                        let j2 = choose|j2: int|
                            0 <= j2 < pre[p].1@.len() && (#[trigger] pre[p].1@[j2])@ == x;
                        assert(dict_set(pre, tk).contains(x));
                    }
                } else {
                    assert(pre[i] == post[i]);
                    assert(dict_set(pre, tk).contains(x));
                }
            };
            assert forall|x: Seq<char>| dict_set(pre, tk).insert(v).contains(x) implies dict_set(
                post,
                tk,
            ).contains(x) by {
                if x == v {
                    assert(str_set(post[p].1@).contains(x));
                    let j = choose|j: int|
                        0 <= j < post[p].1@.len() && (#[trigger] post[p].1@[j])@ == x;
                    assert(dict_set(post, tk).contains(x));
                } else {
                    let (i, j) = choose|i: int, j: int|
                        #![trigger pre[i].1@[j]]
                        0 <= i < pre.len() && pre[i].0@ == tk && 0 <= j
                            < pre[i].1@.len() && pre[i].1@[j]@ == x;
                    if i == p {
                        assert(str_set(pre[p].1@).contains(x));
                        assert(str_set(post[p].1@).contains(x));
                        let j2 = choose|j2: int|
                            0 <= j2 < post[p].1@.len() && (#[trigger] post[p].1@[j2])@ == x;
                        assert(dict_set(post, tk).contains(x));
                    } else {
                        assert(post[i] == pre[i]);
                        assert(dict_set(post, tk).contains(x));
                    }
                }
            };
        };
    } else {
        assert(dict_set(post, tk) =~= dict_set(pre, tk)) by {
            assert forall|x: Seq<char>| dict_set(post, tk).contains(x) implies dict_set(
                pre,
                tk,
            ).contains(x) by {
                let (i, j) = choose|i: int, j: int|
                    #![trigger post[i].1@[j]]
                    0 <= i < post.len() && post[i].0@ == tk && 0 <= j
                        < post[i].1@.len() && post[i].1@[j]@ == x;
                assert(i != p);
                assert(pre[i] == post[i]);
            };
            assert forall|x: Seq<char>| dict_set(pre, tk).contains(x) implies dict_set(
                post,
                tk,
            ).contains(x) by {
                let (i, j) = choose|i: int, j: int|
                    #![trigger pre[i].1@[j]]
                    0 <= i < pre.len() && pre[i].0@ == tk && 0 <= j
                        < pre[i].1@.len() && pre[i].1@[j]@ == x;
                assert(i != p);
                assert(post[i] == pre[i]);
            };
        };
    }
}

/// After inserting a fresh entry `(k, [v])` at `p`, the value set under
/// each tag key changes exactly by `v` under `k`.
proof fn dict_fresh_insert_set(
    pre: Seq<(String, Vec<String>)>,
    post: Seq<(String, Vec<String>)>,
    p: int,
    tk: Seq<char>,
    k: Seq<char>,
    v: Seq<char>,
)
    requires
        0 <= p <= pre.len(),
        post == pre.insert(p, post[p]),
        post[p].0@ == k,
        post[p].1@.len() == 1,
        post[p].1@[0]@ == v,
        forall|i: int| 0 <= i < pre.len() ==> (#[trigger] pre[i]).0@ != k,
    ensures
        dict_set(post, tk) == if tk == k {
            dict_set(pre, tk).insert(v)
        } else {
            dict_set(pre, tk)
        },
{
    pre.insert_ensures(p, post[p]);
    assert forall|x: Seq<char>| dict_set(post, tk).contains(x) implies (if tk == k {
        dict_set(pre, tk).insert(v)
    } else {
        dict_set(pre, tk)
    }).contains(x) by {
        let (i, j) = choose|i: int, j: int|
            #![trigger post[i].1@[j]]
            0 <= i < post.len() && post[i].0@ == tk && 0 <= j < post[i].1@.len()
                && post[i].1@[j]@ == x;
        if i == p {
            assert(tk == k && x == v);
        } else if i < p {
            assert(post[i] == pre[i]);
            assert(dict_set(pre, tk).contains(x));
        } else {
            assert(post[i] == pre[i - 1]);
            assert(dict_set(pre, tk).contains(x));
        }
    };
    assert forall|x: Seq<char>| (if tk == k {
        dict_set(pre, tk).insert(v)
    } else {
        dict_set(pre, tk)
    }).contains(x) implies dict_set(post, tk).contains(x) by {
        if tk == k && x == v {
            assert(post[p].0@ == tk && post[p].1@[0]@ == x);
        } else {
            let (i, j) = choose|i: int, j: int|
                #![trigger pre[i].1@[j]]
                0 <= i < pre.len() && pre[i].0@ == tk && 0 <= j < pre[i].1@.len()
                    && pre[i].1@[j]@ == x;
            if i < p {
                assert(post[i] == pre[i]);
                assert(dict_set(post, tk).contains(x));
            } else {
                assert(post[i + 1] == pre[i]);
                assert(dict_set(post, tk).contains(x));
            }
        }
    };
    assert(dict_set(post, tk) =~= (if tk == k {
        dict_set(pre, tk).insert(v)
    } else {
        dict_set(pre, tk)
    }));
}

// ---------------------------------------------------------------------------
// Posting lists: one compressed bitmap of series ids per composite
// `(tag key, tag value)` byte key.

/// The ids the posting list holds under the composite key `lk`.
pub open spec fn posting_set(pl: Seq<(Vec<u8>, croaring::Treemap)>, lk: Seq<u8>) -> Set<u64> {
    Set::new(
        |x: u64|
            exists|i: int|
                #![trigger pl[i]]
                0 <= i < pl.len() && pl[i].0@ == lk && treemap_set(pl[i].1).contains(x),
    )
}

/// Composite keys unique; every bitmap's id set finite.
pub open spec fn posting_wf(pl: Seq<(Vec<u8>, croaring::Treemap)>) -> bool {
    &&& forall|i: int, j: int|
        0 <= i < j < pl.len() ==> (#[trigger] pl[i]).0@ != (#[trigger] pl[j]).0@
    &&& forall|i: int| 0 <= i < pl.len() ==> treemap_set((#[trigger] pl[i]).1).finite()
}

/// With unique keys, the posting set under `lk` is the one matching
/// bitmap, or empty.
pub proof fn lemma_posting_lookup(pl: Seq<(Vec<u8>, croaring::Treemap)>, lk: Seq<u8>)
    requires
        posting_wf(pl),
    ensures
        bytes_index(pl, lk) < pl.len() ==> posting_set(pl, lk) == treemap_set(
            pl[bytes_index(pl, lk) as int].1,
        ),
        bytes_index(pl, lk) >= pl.len() ==> posting_set(pl, lk) == Set::<u64>::empty(),
        posting_set(pl, lk).finite(),
{
    lemma_bytes_index(pl, lk);
    let bi = bytes_index(pl, lk);
    if bi < pl.len() {
        assert(posting_set(pl, lk) =~= treemap_set(pl[bi as int].1)) by {
            assert forall|x: u64| posting_set(pl, lk).contains(x) implies treemap_set(
                pl[bi as int].1,
            ).contains(x) by {
                let i = choose|i: int|
                    #![trigger pl[i]]
                    0 <= i < pl.len() && pl[i].0@ == lk && treemap_set(pl[i].1).contains(x);
                if i < bi {
                    assert(pl[i].0@ != lk);
                } else if i > bi {
                    assert(pl[bi as int].0@ != pl[i].0@);
                }
            };
        };
    } else {
        assert(posting_set(pl, lk) =~= Set::<u64>::empty()) by {
            assert forall|x: u64| !posting_set(pl, lk).contains(x) by {
                if posting_set(pl, lk).contains(x) {
                    let i = choose|i: int|
                        #![trigger pl[i]]
                        0 <= i < pl.len() && pl[i].0@ == lk && treemap_set(pl[i].1).contains(x);
                    assert(pl[i].0@ != lk);
                }
            };
        };
    }
}

/// Adds `id` to the posting list under `lk`, creating the entry on
/// first use; the set under every other key is kept.
fn posting_add(pl: &mut Vec<(Vec<u8>, croaring::Treemap)>, lk: Vec<u8>, id: u64)
    requires
        posting_wf(old(pl)@),
    ensures
        posting_wf(final(pl)@),
        forall|l2: Seq<u8>|
            #[trigger] posting_set(final(pl)@, l2) == if l2 == lk@ {
                posting_set(old(pl)@, l2).insert(id)
            } else {
                posting_set(old(pl)@, l2)
            },
{
    proof {
        lemma_bytes_index(pl@, lk@);
    }
    let bi = find_bytes_entry(pl, &lk);
    let ghost pre = pl@;
    if bi < pl.len() {
        treemap_add(&mut pl[bi].1, id);
        proof {
            assert(pl@ == pre.update(bi as int, pl@[bi as int]));
            assert(pl@[bi as int].0 == pre[bi as int].0);
            assert(treemap_set(pl@[bi as int].1) == treemap_set(pre[bi as int].1).insert(id));
            assert forall|i: int| 0 <= i < pl@.len() && i != bi implies pl@[i] == pre[i] by {}
            assert forall|l2: Seq<u8>| #[trigger] posting_set(pl@, l2) == (if l2 == lk@ {
                posting_set(pre, l2).insert(id)
            } else {
                posting_set(pre, l2)
            }) by {
                lemma_posting_lookup(pre, l2);
                assert(posting_wf(pl@)) by {
                    assert forall|i: int|
                        0 <= i < pl@.len() implies treemap_set((#[trigger] pl@[i]).1).finite() by {
                        if i != bi {
                            assert(pl@[i] == pre[i]);
                        }
                    };
                };
                lemma_posting_lookup(pl@, l2);
                lemma_bytes_index(pre, l2);
                lemma_bytes_index(pl@, l2);
                assert(bytes_index(pl@, l2) == bytes_index(pre, l2)) by {
                    lemma_bytes_index_same_keys(pre, pl@, l2);
                }
                if l2 == lk@ {
                    assert(posting_set(pl@, l2) =~= posting_set(pre, l2).insert(id));
                } else {
                    if bytes_index(pre, l2) < pre.len() {
                        assert(pl@[bytes_index(pre, l2) as int] == pre[bytes_index(
                            pre,
                            l2,
                        ) as int]);
                    }
                    assert(posting_set(pl@, l2) =~= posting_set(pre, l2));
                }
            };
        }
    } else {
        let mut t = treemap_new();
        treemap_add(&mut t, id);
        let ghost tg = t;
        let ghost lkg = lk;
        pl.push((lk, t));
        proof {
            assert(pl@ == pre.push((lkg, tg)));
            assert forall|l2: Seq<u8>| #[trigger] posting_set(pl@, l2) == (if l2 == lk@ {
                posting_set(pre, l2).insert(id)
            } else {
                posting_set(pre, l2)
            }) by {
                lemma_bytes_index(pre, l2);
                if l2 == lkg@ {
                    assert(treemap_set(pl@[pre.len() as int].1).contains(id));
                    assert(posting_set(pl@, l2) =~= posting_set(pre, l2).insert(id)) by {
                        assert forall|x: u64| posting_set(pl@, l2).contains(x) implies posting_set(
                            pre,
                            l2,
                        ).insert(id).contains(x) by {
                            let i = choose|i: int|
                                #![trigger pl@[i]]
                                0 <= i < pl@.len() && pl@[i].0@ == l2 && treemap_set(
                                    pl@[i].1,
                                ).contains(x);
                            if i < pre.len() {
                                assert(pre[i] == pl@[i]);
                            } else {
                                assert(x == id);
                            }
                        };
                        assert forall|x: u64|
                            posting_set(pre, l2).insert(id).contains(x) implies posting_set(
                            pl@,
                            l2,
                        ).contains(x) by {
                            if x == id {
                                assert(pl@[pre.len() as int].0@ == l2);
                            } else {
                                let i = choose|i: int|
                                    #![trigger pre[i]]
                                    0 <= i < pre.len() && pre[i].0@ == l2 && treemap_set(
                                        pre[i].1,
                                    ).contains(x);
                                assert(pl@[i] == pre[i]);
                            }
                        };
                    };
                } else {
                    assert(posting_set(pl@, l2) =~= posting_set(pre, l2)) by {
                        assert forall|x: u64| posting_set(pl@, l2).contains(x) implies posting_set(
                            pre,
                            l2,
                        ).contains(x) by {
                            let i = choose|i: int|
                                #![trigger pl@[i]]
                                0 <= i < pl@.len() && pl@[i].0@ == l2 && treemap_set(
                                    pl@[i].1,
                                ).contains(x);
                            assert(i < pre.len());
                            assert(pre[i] == pl@[i]);
                        };
                        assert forall|x: u64| posting_set(pre, l2).contains(x) implies posting_set(
                            pl@,
                            l2,
                        ).contains(x) by {
                            let i = choose|i: int|
                                #![trigger pre[i]]
                                0 <= i < pre.len() && pre[i].0@ == l2 && treemap_set(
                                    pre[i].1,
                                ).contains(x);
                            assert(pl@[i] == pre[i]);
                        };
                    };
                }
            };
            assert(posting_wf(pl@)) by {
                assert forall|i: int, j: int| 0 <= i < j < pl@.len() implies (
                #[trigger] pl@[i]).0@ != (#[trigger] pl@[j]).0@ by {
                    if j < pre.len() {
                        assert(pl@[i] == pre[i] && pl@[j] == pre[j]);
                    } else {
                        assert(pl@[i] == pre[i]);
                        assert(pre[i].0@ != lkg@);
                    }
                };
                assert forall|i: int|
                    0 <= i < pl@.len() implies treemap_set((#[trigger] pl@[i]).1).finite() by {
                    if i < pre.len() {
                        assert(pl@[i] == pre[i]);
                    }
                };
            };
        }
    }
}

/// Two lists with pointwise equal keys have the same key index.
proof fn lemma_bytes_index_same_keys<V>(a: Seq<(Vec<u8>, V)>, b: Seq<(Vec<u8>, V)>, k: Seq<u8>)
    requires
        a.len() == b.len(),
        forall|i: int| 0 <= i < a.len() ==> (#[trigger] a[i]).0@ == (#[trigger] b[i]).0@,
    ensures
        bytes_index(a, k) == bytes_index(b, k),
    decreases a.len(),
{
    if a.len() > 0 {
        if a[0].0@ == k {
        } else {
            assert forall|i: int|
                0 <= i < a.skip(1).len() implies (#[trigger] a.skip(1)[i]).0@ == (#[trigger] b.skip(
                1,
            )[i]).0@ by {
                assert(a.skip(1)[i] == a[i + 1]);
                assert(b.skip(1)[i] == b[i + 1]);
            };
            lemma_bytes_index_same_keys(a.skip(1), b.skip(1), k);
        }
    }
}

// ---------------------------------------------------------------------------
// The series directory: key <-> id interning, the tag dictionary and
// the posting lists.

/// Appending an entry moves a missing key's index past the new entry
/// and keeps a found key's index.
proof fn lemma_str_index_push<V>(s: Seq<(String, V)>, e: (String, V), k: Seq<char>)
    ensures
        str_index(s.push(e), k) == if str_index(s, k) < s.len() {
            str_index(s, k) as int
        } else if e.0@ == k {
            s.len() as int
        } else {
            s.len() as int + 1
        },
    decreases s.len(),
{
    lemma_str_index(s, k);
    if s.len() == 0 {
        assert(s.push(e)[0] == e);
        assert(s.push(e).skip(1) =~= s);
    } else if s[0].0@ == k {
        assert(s.push(e)[0] == s[0]);
    } else {
        assert(s.push(e)[0] == s[0]);
        assert(s.push(e).skip(1) =~= s.skip(1).push(e));
        lemma_str_index_push(s.skip(1), e, k);
    }
}

/// The same, for id-keyed entries.
proof fn lemma_id_index_push<V>(s: Seq<(u64, V)>, e: (u64, V), k: u64)
    ensures
        id_index(s.push(e), k) == if id_index(s, k) < s.len() {
            id_index(s, k) as int
        } else if e.0 == k {
            s.len() as int
        } else {
            s.len() as int + 1
        },
    decreases s.len(),
{
    lemma_id_index(s, k);
    if s.len() == 0 {
        assert(s.push(e)[0] == e);
        assert(s.push(e).skip(1) =~= s);
    } else if s[0].0 == k {
        assert(s.push(e)[0] == s[0]);
    } else {
        assert(s.push(e)[0] == s[0]);
        assert(s.push(e).skip(1) =~= s.skip(1).push(e));
        lemma_id_index_push(s.skip(1), e, k);
    }
}

/// The series directory of one partition.
pub struct SeriesMap {
    pub current_size: usize,
    pub last_id: u64,
    pub series_key_to_id: Vec<(String, u64)>,
    pub series_id_to_key_and_type: Vec<(u64, (String, SeriesDataType))>,
    pub tag_keys: Vec<(String, Vec<String>)>,
    pub posting_list: Vec<(Vec<u8>, croaring::Treemap)>,
}

/// The value type a point carries.
pub open spec fn point_vt(p: PointType) -> SeriesDataType {
    match p {
        PointType::I64(_) => SeriesDataType::I64,
        PointType::F64(_) => SeriesDataType::F64,
    }
}

/// Does any pair of `prs` encode to the composite key `lk`?
pub open spec fn pairs_have_list_key(prs: Seq<(Seq<char>, Seq<char>)>, lk: Seq<u8>) -> bool {
    exists|j: int|
        #![trigger prs[j]]
        0 <= j < prs.len() && spec_list_key(prs[j].0, prs[j].1) == lk
}

/// The values `prs` carries under the tag key `tk`.
pub open spec fn pairs_values_for(prs: Seq<(Seq<char>, Seq<char>)>, tk: Seq<char>) -> Set<
    Seq<char>,
> {
    Set::new(
        |v: Seq<char>|
            exists|j: int| #![trigger prs[j]] 0 <= j < prs.len() && prs[j] == (tk, v),
    )
}

/// Bytes the size counter charges for interning one key of `n` bytes.
pub open spec fn key_cost(n: int) -> int {
    2 * n + 24
}

/// Bytes the size counter charges for the index pairs `prs`: for each
/// pair, the composite key plus one more copy of tag key and value.
pub open spec fn pairs_cost(prs: Seq<(Seq<char>, Seq<char>)>) -> int
    decreases prs.len(),
{
    if prs.len() == 0 {
        0
    } else {
        2 * (vstd::utf8::encode_utf8(prs[0].0).len() + vstd::utf8::encode_utf8(prs[0].1).len())
            + 1 + pairs_cost(prs.skip(1))
    }
}

pub proof fn lemma_pairs_cost_nonneg(prs: Seq<(Seq<char>, Seq<char>)>)
    ensures
        pairs_cost(prs) >= 0,
    decreases prs.len(),
{
    if prs.len() > 0 {
        lemma_pairs_cost_nonneg(prs.skip(1));
    }
}

/// Clamp at the top of `usize`, as the saturating size counters do.
pub open spec fn clamp_usize(x: int) -> int {
    if x <= usize::MAX {
        x
    } else {
        usize::MAX as int
    }
}

impl SeriesMap {
    /// The id interned for the key `k`.
    pub open spec fn spec_key_id(self, k: Seq<char>) -> Option<u64> {
        let i = str_index(self.series_key_to_id@, k);
        if i < self.series_key_to_id@.len() {
            Some(self.series_key_to_id@[i as int].1)
        } else {
            None
        }
    }

    /// The key and value type recorded for the id `id`.
    pub open spec fn spec_id_entry(self, id: u64) -> Option<(Seq<char>, SeriesDataType)> {
        let i = id_index(self.series_id_to_key_and_type@, id);
        if i < self.series_id_to_key_and_type@.len() {
            Some(
                (
                    self.series_id_to_key_and_type@[i as int].1.0@,
                    self.series_id_to_key_and_type@[i as int].1.1,
                ),
            )
        } else {
            None
        }
    }

    /// The ids posted under the composite key `lk`.
    pub open spec fn spec_posting(self, lk: Seq<u8>) -> Set<u64> {
        posting_set(self.posting_list@, lk)
    }

    /// The tag values recorded under the tag key `tk`.
    pub open spec fn spec_tag_set(self, tk: Seq<char>) -> Set<Seq<char>> {
        dict_set(self.tag_keys@, tk)
    }

    /// The directory's invariant: the two maps are mutual inverses with
    /// unique keys, ids stay within `1..=last_id`, posting lists are
    /// finite and only hold interned ids, and the tag dictionary is
    /// sorted.
    pub open spec fn wf(self) -> bool {
        let keys = self.series_key_to_id@;
        let ids = self.series_id_to_key_and_type@;
        &&& forall|i: int, j: int|
            0 <= i < j < keys.len() ==> (#[trigger] keys[i]).0@ != (#[trigger] keys[j]).0@
        &&& ids_unique(ids)
        &&& forall|i: int|
            0 <= i < keys.len() ==> {
                let e = #[trigger] keys[i];
                &&& id_index(ids, e.1) < ids.len()
                &&& ids[id_index(ids, e.1) as int].1.0@ == e.0@
            }
        &&& forall|i: int|
            0 <= i < ids.len() ==> {
                let e = #[trigger] ids[i];
                &&& str_index(keys, e.1.0@) < keys.len()
                &&& keys[str_index(keys, e.1.0@) as int].1 == e.0
            }
        &&& forall|i: int|
            0 <= i < ids.len() ==> 1 <= (#[trigger] ids[i]).0 <= self.last_id
        &&& posting_wf(self.posting_list@)
        &&& forall|lk: Seq<u8>, x: u64|
            #[trigger] self.spec_posting(lk).contains(x) ==> id_index(ids, x) < ids.len()
        &&& dict_sorted(self.tag_keys@)
        &&& dict_entries_nonempty(self.tag_keys@)
    }

    /// Looks up the posting list for a `(tag key, tag value)` pair; a
    /// pair never seen yields an empty bitmap. The returned bitmap is a
    /// copy owned by the caller.
    pub fn posting_list_for_key_value(&self, key: &str, value: &str) -> (r: croaring::Treemap)
        requires
            self.wf(),
        ensures
            treemap_set(r) == self.spec_posting(spec_list_key(key@, value@)),
            treemap_set(r).finite(),
    {
        let lk = list_key(key, value);
        proof {
            lemma_posting_lookup(self.posting_list@, lk@);
        }
        let i = find_bytes_entry(&self.posting_list, &lk);
        if i < self.posting_list.len() {
            treemap_clone(&self.posting_list[i].1)
        } else {
            treemap_new()
        }
    }

    /// Failure cause: the key is interned with the other value type.
    pub open spec fn type_conflict(self, p: PointType) -> bool {
        match self.spec_key_id(p.spec_series()) {
            Some(id) => match self.spec_id_entry(id) {
                Some(e) => e.1 != point_vt(p),
                None => false,
            },
            None => false,
        }
    }

    /// The intern transition: an already-interned key gets its id
    /// written back and changes nothing; a fresh key is assigned
    /// `last_id + 1` and indexed under every pair of its decomposition.
    pub open spec fn intern_post(
        pre: SeriesMap,
        post: SeriesMap,
        p_pre: PointType,
        p_post: PointType,
    ) -> bool {
        let k = p_pre.spec_series();
        match pre.spec_key_id(k) {
            Some(id) => post == pre && same_point_with_id(p_pre, p_post, id),
            None => {
                let id = (pre.last_id + 1) as u64;
                let prs = spec_index_pairs(k).unwrap();
                &&& spec_index_pairs(k) is Some
                &&& same_point_with_id(p_pre, p_post, id)
                &&& post.last_id == id
                &&& forall|k2: Seq<char>|
                    #[trigger] post.spec_key_id(k2) == if k2 == k {
                        Some(id)
                    } else {
                        pre.spec_key_id(k2)
                    }
                &&& forall|id2: u64|
                    #[trigger] post.spec_id_entry(id2) == if id2 == id {
                        Some((k, point_vt(p_pre)))
                    } else {
                        pre.spec_id_entry(id2)
                    }
                &&& forall|lk: Seq<u8>|
                    #[trigger] post.spec_posting(lk) == if pairs_have_list_key(prs, lk) {
                        pre.spec_posting(lk).insert(id)
                    } else {
                        pre.spec_posting(lk)
                    }
                &&& forall|tk: Seq<char>|
                    #[trigger] post.spec_tag_set(tk) == pre.spec_tag_set(tk).union(
                        pairs_values_for(prs, tk),
                    )
                &&& post.current_size == clamp_usize(
                    pre.current_size + key_cost(vstd::utf8::encode_utf8(k).len() as int)
                        + pairs_cost(prs),
                )
            },
        }
    }

    /// Interns the point's series key, writing the assigned id back
    /// into the point. Fails, changing nothing, when the key is already
    /// interned with the other value type or does not follow the
    /// canonical encoding.
    pub fn insert_series(&mut self, point: &mut PointType) -> (r: Result<(), ParseError>)
        requires
            old(self).wf(),
            old(self).last_id < u64::MAX,
        ensures
            final(self).wf(),
            match r {
                Ok(_) => Self::intern_post(*old(self), *final(self), *old(point), *final(point)),
                Err(_) => {
                    &&& *final(self) == *old(self)
                    &&& *final(point) == *old(point)
                    &&& (old(self).type_conflict(*old(point)) || (old(self).spec_key_id(
                        old(point).spec_series(),
                    ) is None && spec_index_pairs(old(point).spec_series()) is None))
                },
            },
            r is Ok <==> !(old(self).type_conflict(*old(point)) || (old(self).spec_key_id(
                old(point).spec_series(),
            ) is None && spec_index_pairs(old(point).spec_series()) is None)),
    {
        proof {
            lemma_str_index(self.series_key_to_id@, point.spec_series());
        }
        let ki = find_str_entry(&self.series_key_to_id, point.series().as_str());
        if ki < self.series_key_to_id.len() {
            let id = self.series_key_to_id[ki].1;
            proof {
                lemma_id_index(self.series_id_to_key_and_type@, id);
            }
            let ei = find_id_entry(&self.series_id_to_key_and_type, id);
            let stored = self.series_id_to_key_and_type[ei].1.1;
            let type_matches = match (stored, &*point) {
                (SeriesDataType::I64, PointType::I64(_)) => true,
                (SeriesDataType::F64, PointType::F64(_)) => true,
                _ => false,
            };
            if !type_matches {
                return Err(
                    ParseError { description: String::from_str("series type mismatch") },
                );
            }
            point.set_series_id(id);
            return Ok(());
        }
        let pairs = match point.index_pairs() {
            Ok(ps) => ps,
            Err(e) => {
                return Err(e);
            },
        };
        let ghost prs = spec_index_pairs(point.spec_series()).unwrap();
        let ghost pre = *self;
        let ghost p_pre = *point;
        let id = self.last_id + 1;
        self.last_id = id;
        point.set_series_id(id);
        let series_type = match &*point {
            PointType::I64(_) => SeriesDataType::I64,
            PointType::F64(_) => SeriesDataType::F64,
        };
        let key_clone = point.series().clone();
        let key_len = point.series().as_str().as_bytes().len();
        self.series_key_to_id.push((key_clone, id));
        let key_clone2 = point.series().clone();
        self.series_id_to_key_and_type.push((id, (key_clone2, series_type)));
        self.current_size = sat_add(self.current_size, key_len);
        self.current_size = sat_add(self.current_size, key_len);
        self.current_size = sat_add(self.current_size, 24);
        proof {
            assert(key_len == vstd::utf8::encode_utf8(p_pre.spec_series()).len());
            assert(self.current_size == clamp_usize(pre.current_size + 2 * key_len + 24));
        }
        proof {
            lemma_pairs_cost_nonneg(prs);
            let k = p_pre.spec_series();
            assert forall|k2: Seq<char>|
                #[trigger] str_index(self.series_key_to_id@, k2) == (if str_index(
                    pre.series_key_to_id@,
                    k2,
                ) < pre.series_key_to_id@.len() {
                    str_index(pre.series_key_to_id@, k2) as int
                } else if k2 == k {
                    pre.series_key_to_id@.len() as int
                } else {
                    pre.series_key_to_id@.len() as int + 1
                }) by {
                lemma_str_index_push(
                    pre.series_key_to_id@,
                    self.series_key_to_id@[pre.series_key_to_id@.len() as int],
                    k2,
                );
            };
            assert forall|id2: u64|
                #[trigger] id_index(self.series_id_to_key_and_type@, id2) == (if id_index(
                    pre.series_id_to_key_and_type@,
                    id2,
                ) < pre.series_id_to_key_and_type@.len() {
                    id_index(pre.series_id_to_key_and_type@, id2) as int
                } else if id2 == id {
                    pre.series_id_to_key_and_type@.len() as int
                } else {
                    pre.series_id_to_key_and_type@.len() as int + 1
                }) by {
                lemma_id_index_push(
                    pre.series_id_to_key_and_type@,
                    self.series_id_to_key_and_type@[pre.series_id_to_key_and_type@.len() as int],
                    id2,
                );
            };
        }
        proof {
            assert(prs.take(0) =~= Seq::<(Seq<char>, Seq<char>)>::empty());
            assert(pairs_cost(prs.take(0)) == 0);
            assert(self.current_size == clamp_usize(
                pre.current_size + key_cost(
                    vstd::utf8::encode_utf8(p_pre.spec_series()).len() as int,
                ) + pairs_cost(prs.take(0)),
            ));
            assert forall|tk: Seq<char>| #[trigger] dict_set(self.tag_keys@, tk) == dict_set(
                pre.tag_keys@,
                tk,
            ).union(pairs_values_for(prs.take(0), tk)) by {
                assert(pairs_values_for(prs.take(0), tk) =~= Set::<Seq<char>>::empty());
                assert(dict_set(pre.tag_keys@, tk).union(pairs_values_for(prs.take(0), tk)) =~= dict_set(
                    pre.tag_keys@,
                    tk,
                ));
            };
        }
        let mut pi: usize = 0;
        let pn = pairs.len();
        while pi < pn
            invariant
                pn == pairs@.len(),
                pi <= pn,
                prs == pairs@.map_values(|p: Pair| p@),
                pre.wf(),
                pre.last_id < u64::MAX,
                id == pre.last_id + 1,
                // untouched in this loop:
                self.last_id == id,
                self.series_key_to_id@ == pre.series_key_to_id@.push(
                    self.series_key_to_id@[pre.series_key_to_id@.len() as int],
                ),
                self.series_key_to_id@.len() == pre.series_key_to_id@.len() + 1,
                self.series_key_to_id@[pre.series_key_to_id@.len() as int].0@ == p_pre.spec_series(),
                self.series_key_to_id@[pre.series_key_to_id@.len() as int].1 == id,
                self.series_id_to_key_and_type@ == pre.series_id_to_key_and_type@.push(
                    self.series_id_to_key_and_type@[pre.series_id_to_key_and_type@.len() as int],
                ),
                self.series_id_to_key_and_type@.len() == pre.series_id_to_key_and_type@.len() + 1,
                self.series_id_to_key_and_type@[pre.series_id_to_key_and_type@.len() as int]
                    == (id, (
                    self.series_id_to_key_and_type@[pre.series_id_to_key_and_type@.len() as int].1.0,
                    point_vt(p_pre),
                )),
                self.series_id_to_key_and_type@[pre.series_id_to_key_and_type@.len() as int].1.0@
                    == p_pre.spec_series(),
                str_index(pre.series_key_to_id@, p_pre.spec_series())
                    >= pre.series_key_to_id@.len(),
                // per-prefix effects:
                posting_wf(self.posting_list@),
                forall|lk: Seq<u8>|
                    #[trigger] posting_set(self.posting_list@, lk) == if pairs_have_list_key(
                        prs.take(pi as int),
                        lk,
                    ) {
                        posting_set(pre.posting_list@, lk).insert(id)
                    } else {
                        posting_set(pre.posting_list@, lk)
                    },
                dict_sorted(self.tag_keys@),
                dict_entries_nonempty(self.tag_keys@),
                forall|tk: Seq<char>|
                    #[trigger] dict_set(self.tag_keys@, tk) == dict_set(pre.tag_keys@, tk).union(
                        pairs_values_for(prs.take(pi as int), tk),
                    ),
                self.current_size == clamp_usize(
                    pre.current_size + key_cost(
                        vstd::utf8::encode_utf8(p_pre.spec_series()).len() as int,
                    ) + pairs_cost(prs.take(pi as int)),
                ),
            decreases pn - pi,
        {
            let pair = &pairs[pi];
            let lk = list_key(pair.key.as_str(), pair.value.as_str());
            let lk_len = lk.len();
            let pk_len = pair.key.as_str().as_bytes().len();
            let pv_len = pair.value.as_str().as_bytes().len();
            let ghost size_before = self.current_size;
            self.current_size = sat_add(self.current_size, lk_len);
            self.current_size = sat_add(self.current_size, pk_len);
            self.current_size = sat_add(self.current_size, pv_len);
            let ghost posting_before = self.posting_list@;
            let ghost dict_before = self.tag_keys@;
            posting_add(&mut self.posting_list, lk, id);
            dict_insert(&mut self.tag_keys, &pair.key, &pair.value);
            proof {
                let pip = pi + 1 as int;
                assert(prs.take(pip) =~= prs.take(pi as int).push(prs[pi as int]));
                assert(prs[pi as int] == pairs@.map_values(|p: Pair| p@)[pi as int]);
                assert(prs[pi as int] == (pair.key@, pair.value@));
                lemma_pairs_cost_take_snoc(prs, pi as int);
                assert forall|lk2: Seq<u8>|
                    #[trigger] posting_set(self.posting_list@, lk2) == (if pairs_have_list_key(
                        prs.take(pip),
                        lk2,
                    ) {
                        posting_set(pre.posting_list@, lk2).insert(id)
                    } else {
                        posting_set(pre.posting_list@, lk2)
                    }) by {
                    if pairs_have_list_key(prs.take(pip), lk2) {
                        if lk2 == spec_list_key(pair.key@, pair.value@) {
                            if pairs_have_list_key(prs.take(pi as int), lk2) {
                                assert(posting_set(self.posting_list@, lk2) == posting_set(
                                    posting_before,
                                    lk2,
                                ).insert(id));
                                assert(posting_set(posting_before, lk2) == posting_set(
                                    pre.posting_list@,
                                    lk2,
                                ).insert(id));
                                assert(posting_set(pre.posting_list@, lk2).insert(id).insert(id)
                                    =~= posting_set(pre.posting_list@, lk2).insert(id));
                            }
                        } else {
                            let j = choose|j: int|
                                #![trigger prs.take(pip)[j]]
                                0 <= j < prs.take(pip).len() && spec_list_key(
                                    prs.take(pip)[j].0,
                                    prs.take(pip)[j].1,
                                ) == lk2;
                            assert(j < pi as int);
                            assert(prs.take(pi as int)[j] == prs.take(pip)[j]);
                            assert(pairs_have_list_key(prs.take(pi as int), lk2));
                        }
                    } else {
                        assert(!pairs_have_list_key(prs.take(pi as int), lk2)) by {
                            if pairs_have_list_key(prs.take(pi as int), lk2) {
                                let j = choose|j: int|
                                    #![trigger prs.take(pi as int)[j]]
                                    0 <= j < prs.take(pi as int).len() && spec_list_key(
                                        prs.take(pi as int)[j].0,
                                        prs.take(pi as int)[j].1,
                                    ) == lk2;
                                assert(prs.take(pip)[j] == prs.take(pi as int)[j]);
                            }
                        };
                        assert(lk2 != spec_list_key(pair.key@, pair.value@)) by {
                            if lk2 == spec_list_key(pair.key@, pair.value@) {
                                assert(prs.take(pip)[pi as int] == (pair.key@, pair.value@));
                            }
                        };
                    }
                };
                assert forall|tk: Seq<char>|
                    #[trigger] dict_set(self.tag_keys@, tk) == dict_set(
                        pre.tag_keys@,
                        tk,
                    ).union(pairs_values_for(prs.take(pip), tk)) by {
                    assert(dict_set(self.tag_keys@, tk) == if tk == pair.key@ {
                        dict_set(dict_before, tk).insert(pair.value@)
                    } else {
                        dict_set(dict_before, tk)
                    });
                    lemma_pairs_values_take_snoc(prs, pi as int, tk);
                    if tk == pair.key@ {
                        assert(dict_set(pre.tag_keys@, tk).union(
                            pairs_values_for(prs.take(pi as int), tk),
                        ).insert(pair.value@) =~= dict_set(pre.tag_keys@, tk).union(
                            pairs_values_for(prs.take(pi as int), tk).insert(pair.value@),
                        ));
                    }
                };
            }
            pi = pi + 1;
        }
        proof {
            let k = p_pre.spec_series();
            assert(prs.take(pn as int) =~= prs);
            assert(*self == (SeriesMap {
                current_size: self.current_size,
                last_id: self.last_id,
                series_key_to_id: self.series_key_to_id,
                series_id_to_key_and_type: self.series_id_to_key_and_type,
                tag_keys: self.tag_keys,
                posting_list: self.posting_list,
            }));
            lemma_intern_wf(pre, *self, p_pre, *point, id, prs);
        }
        Ok(())
    }
}

/// Charging one more pair extends the pair cost by that pair's cost.
proof fn lemma_pairs_cost_take_snoc(prs: Seq<(Seq<char>, Seq<char>)>, i: int)
    requires
        0 <= i < prs.len(),
    ensures
        pairs_cost(prs.take(i + 1)) == pairs_cost(prs.take(i)) + 2 * (vstd::utf8::encode_utf8(
            prs[i].0,
        ).len() + vstd::utf8::encode_utf8(prs[i].1).len()) + 1,
    decreases i,
{
    lemma_pairs_cost_snoc(prs.take(i + 1));
    assert(prs.take(i + 1).take(i) =~= prs.take(i));
    assert(prs.take(i + 1)[i] == prs[i]);
}

proof fn lemma_pairs_cost_snoc(prs: Seq<(Seq<char>, Seq<char>)>)
    requires
        prs.len() > 0,
    ensures
        pairs_cost(prs) == pairs_cost(prs.take(prs.len() - 1)) + 2 * (vstd::utf8::encode_utf8(
            prs[prs.len() - 1].0,
        ).len() + vstd::utf8::encode_utf8(prs[prs.len() - 1].1).len()) + 1,
    decreases prs.len(),
{
    if prs.len() == 1 {
        assert(prs.take(0) =~= Seq::<(Seq<char>, Seq<char>)>::empty());
        assert(pairs_cost(prs.take(0)) == 0);
        assert(prs.skip(1) =~= Seq::<(Seq<char>, Seq<char>)>::empty());
        assert(pairs_cost(prs.skip(1)) == 0);
        assert(pairs_cost(prs) == 2 * (vstd::utf8::encode_utf8(prs[0].0).len()
            + vstd::utf8::encode_utf8(prs[0].1).len()) + 1 + pairs_cost(prs.skip(1)));
    } else {
        lemma_pairs_cost_snoc(prs.skip(1));
        assert(prs.skip(1).take(prs.skip(1).len() - 1) =~= prs.take(prs.len() - 1).skip(1));
        assert(prs.skip(1)[prs.skip(1).len() - 1] == prs[prs.len() - 1]);
        assert(prs.take(prs.len() - 1)[0] == prs[0]);
        assert(prs.take(prs.len() - 1).len() > 0);
        assert(pairs_cost(prs) == 2 * (vstd::utf8::encode_utf8(prs[0].0).len()
            + vstd::utf8::encode_utf8(prs[0].1).len()) + 1 + pairs_cost(prs.skip(1)));
        assert(pairs_cost(prs.take(prs.len() - 1)) == 2 * (vstd::utf8::encode_utf8(prs[0].0).len()
            + vstd::utf8::encode_utf8(prs[0].1).len()) + 1 + pairs_cost(prs.take(prs.len() - 1).skip(1)));
    }
}

/// Taking one more pair extends the per-key value set by that pair's
/// value under its key.
proof fn lemma_pairs_values_take_snoc(prs: Seq<(Seq<char>, Seq<char>)>, i: int, tk: Seq<char>)
    requires
        0 <= i < prs.len(),
    ensures
        pairs_values_for(prs.take(i + 1), tk) == if prs[i].0 == tk {
            pairs_values_for(prs.take(i), tk).insert(prs[i].1)
        } else {
            pairs_values_for(prs.take(i), tk)
        },
{
    let a = pairs_values_for(prs.take(i), tk);
    let b = pairs_values_for(prs.take(i + 1), tk);
    if prs[i].0 == tk {
        assert(b =~= a.insert(prs[i].1)) by {
            assert forall|v: Seq<char>| b.contains(v) implies a.insert(prs[i].1).contains(v) by {
                let j = choose|j: int|
                    #![trigger prs.take(i + 1)[j]]
                    0 <= j < prs.take(i + 1).len() && prs.take(i + 1)[j] == (tk, v);
                if j < i {
                    assert(prs.take(i)[j] == prs.take(i + 1)[j]);
                }
            };
            assert forall|v: Seq<char>| a.insert(prs[i].1).contains(v) implies b.contains(v) by {
                if v == prs[i].1 {
                    assert(prs.take(i + 1)[i] == (tk, v));
                } else {
                    let j = choose|j: int|
                        #![trigger prs.take(i)[j]]
                        0 <= j < prs.take(i).len() && prs.take(i)[j] == (tk, v);
                    assert(prs.take(i + 1)[j] == (tk, v));
                }
            };
        };
    } else {
        assert(b =~= a) by {
            assert forall|v: Seq<char>| b.contains(v) implies a.contains(v) by {
                let j = choose|j: int|
                    #![trigger prs.take(i + 1)[j]]
                    0 <= j < prs.take(i + 1).len() && prs.take(i + 1)[j] == (tk, v);
                assert(j != i);
                assert(prs.take(i)[j] == prs.take(i + 1)[j]);
            };
            assert forall|v: Seq<char>| a.contains(v) implies b.contains(v) by {
                let j = choose|j: int|
                    #![trigger prs.take(i)[j]]
                    0 <= j < prs.take(i).len() && prs.take(i)[j] == (tk, v);
                assert(prs.take(i + 1)[j] == (tk, v));
            };
        };
    }
}

/// The fresh-key intern transition preserves the directory invariant
/// and establishes `intern_post`.
proof fn lemma_intern_wf(
    pre: SeriesMap,
    post: SeriesMap,
    p_pre: PointType,
    p_post: PointType,
    id: u64,
    prs: Seq<(Seq<char>, Seq<char>)>,
)
    requires
        pre.wf(),
        pre.last_id < u64::MAX,
        id == pre.last_id + 1,
        str_index(pre.series_key_to_id@, p_pre.spec_series()) >= pre.series_key_to_id@.len(),
        spec_index_pairs(p_pre.spec_series()) == Some(prs),
        same_point_with_id(p_pre, p_post, id),
        post.last_id == id,
        post.series_key_to_id@ == pre.series_key_to_id@.push(
            post.series_key_to_id@[pre.series_key_to_id@.len() as int],
        ),
        post.series_key_to_id@[pre.series_key_to_id@.len() as int].0@ == p_pre.spec_series(),
        post.series_key_to_id@[pre.series_key_to_id@.len() as int].1 == id,
        post.series_id_to_key_and_type@ == pre.series_id_to_key_and_type@.push(
            post.series_id_to_key_and_type@[pre.series_id_to_key_and_type@.len() as int],
        ),
        post.series_id_to_key_and_type@[pre.series_id_to_key_and_type@.len() as int] == (
        id, (
            post.series_id_to_key_and_type@[pre.series_id_to_key_and_type@.len() as int].1.0,
            point_vt(p_pre),
        )),
        post.series_id_to_key_and_type@[pre.series_id_to_key_and_type@.len() as int].1.0@
            == p_pre.spec_series(),
        posting_wf(post.posting_list@),
        forall|lk: Seq<u8>|
            #[trigger] posting_set(post.posting_list@, lk) == if pairs_have_list_key(prs, lk) {
                posting_set(pre.posting_list@, lk).insert(id)
            } else {
                posting_set(pre.posting_list@, lk)
            },
        dict_sorted(post.tag_keys@),
        dict_entries_nonempty(post.tag_keys@),
        forall|tk: Seq<char>|
            #[trigger] dict_set(post.tag_keys@, tk) == dict_set(pre.tag_keys@, tk).union(
                pairs_values_for(prs, tk),
            ),
        post.current_size == clamp_usize(
            pre.current_size + key_cost(
                vstd::utf8::encode_utf8(p_pre.spec_series()).len() as int,
            ) + pairs_cost(prs),
        ),
    ensures
        post.wf(),
        SeriesMap::intern_post(pre, post, p_pre, p_post),
{
    let k = p_pre.spec_series();
    let keys = pre.series_key_to_id@;
    let ids = pre.series_id_to_key_and_type@;
    let kentry = post.series_key_to_id@[keys.len() as int];
    let identry = post.series_id_to_key_and_type@[ids.len() as int];
    lemma_str_index(keys, k);
    assert forall|k2: Seq<char>|
        #[trigger] str_index(post.series_key_to_id@, k2) == (if str_index(keys, k2)
            < keys.len() {
            str_index(keys, k2) as int
        } else if k2 == k {
            keys.len() as int
        } else {
            keys.len() as int + 1
        }) by {
        lemma_str_index_push(keys, kentry, k2);
    };
    assert forall|id2: u64|
        #[trigger] id_index(post.series_id_to_key_and_type@, id2) == (if id_index(ids, id2)
            < ids.len() {
            id_index(ids, id2) as int
        } else if id2 == id {
            ids.len() as int
        } else {
            ids.len() as int + 1
        }) by {
        lemma_id_index_push(ids, identry, id2);
    };
    lemma_id_index(ids, id);
    assert(id_index(ids, id) >= ids.len()) by {
        if id_index(ids, id) < ids.len() {
            assert(ids[id_index(ids, id) as int].0 == id);
        }
    }
    // uniqueness of keys
    assert forall|i: int, j: int|
        0 <= i < j < post.series_key_to_id@.len() implies (#[trigger] post.series_key_to_id@[i]).0@
        != (#[trigger] post.series_key_to_id@[j]).0@ by {
        if j < keys.len() {
            assert(post.series_key_to_id@[i] == keys[i]);
            assert(post.series_key_to_id@[j] == keys[j]);
        } else {
            assert(post.series_key_to_id@[i] == keys[i]);
            lemma_str_index(keys, keys[i].0@);
            if keys[i].0@ == k {
                assert(str_index(keys, k) < keys.len()) by {
                    if str_index(keys, k) >= keys.len() {
                        assert(keys[i].0@ != k);
                    }
                }
            }
        }
    };
    // uniqueness of ids
    assert forall|i: int, j: int|
        0 <= i < j < post.series_id_to_key_and_type@.len() implies (
    #[trigger] post.series_id_to_key_and_type@[i]).0 != (
    #[trigger] post.series_id_to_key_and_type@[j]).0 by {
        if j < ids.len() {
            assert(post.series_id_to_key_and_type@[i] == ids[i]);
            assert(post.series_id_to_key_and_type@[j] == ids[j]);
        } else {
            assert(post.series_id_to_key_and_type@[i] == ids[i]);
        }
    };
    // key -> id inverse
    assert forall|i: int| 0 <= i < post.series_key_to_id@.len() implies {
        let e = #[trigger] post.series_key_to_id@[i];
        &&& id_index(post.series_id_to_key_and_type@, e.1) < post.series_id_to_key_and_type@.len()
        &&& post.series_id_to_key_and_type@[id_index(post.series_id_to_key_and_type@, e.1) as int].1.0@
            == e.0@
    } by {
        if i < keys.len() {
            assert(post.series_key_to_id@[i] == keys[i]);
            assert(id_index(ids, keys[i].1) < ids.len());
            assert(post.series_id_to_key_and_type@[id_index(ids, keys[i].1) as int] == ids[id_index(
                ids,
                keys[i].1,
            ) as int]);
        } else {
            assert(post.series_key_to_id@[i] == kentry);
        }
    };
    // id -> key inverse
    assert forall|i: int| 0 <= i < post.series_id_to_key_and_type@.len() implies {
        let e = #[trigger] post.series_id_to_key_and_type@[i];
        &&& str_index(post.series_key_to_id@, e.1.0@) < post.series_key_to_id@.len()
        &&& post.series_key_to_id@[str_index(post.series_key_to_id@, e.1.0@) as int].1 == e.0
    } by {
        if i < ids.len() {
            assert(post.series_id_to_key_and_type@[i] == ids[i]);
            assert(str_index(keys, ids[i].1.0@) < keys.len());
            assert(post.series_key_to_id@[str_index(keys, ids[i].1.0@) as int] == keys[str_index(
                keys,
                ids[i].1.0@,
            ) as int]);
            assert(ids[i].1.0@ != k) by {
                if ids[i].1.0@ == k {
                    assert(keys[str_index(keys, k) as int].1 == ids[i].0);
                }
            }
        } else {
            assert(post.series_id_to_key_and_type@[i] == identry);
        }
    };
    // id bounds
    assert forall|i: int| 0 <= i < post.series_id_to_key_and_type@.len() implies 1 <= (
    #[trigger] post.series_id_to_key_and_type@[i]).0 <= post.last_id by {
        if i < ids.len() {
            assert(post.series_id_to_key_and_type@[i] == ids[i]);
        }
    };
    // posting ids stay interned
    assert forall|lk: Seq<u8>, x: u64| #[trigger]
        post.spec_posting(lk).contains(x) implies id_index(
        post.series_id_to_key_and_type@,
        x,
    ) < post.series_id_to_key_and_type@.len() by {
        if pairs_have_list_key(prs, lk) {
            if x != id {
                assert(pre.spec_posting(lk).contains(x));
            }
        } else {
            assert(pre.spec_posting(lk).contains(x));
        }
    };
    // intern_post
    assert(pre.spec_key_id(k) is None);
    assert forall|k2: Seq<char>| #[trigger] post.spec_key_id(k2) == (if k2 == k {
        Some(id)
    } else {
        pre.spec_key_id(k2)
    }) by {
        if k2 != k && str_index(keys, k2) < keys.len() {
            assert(post.series_key_to_id@[str_index(keys, k2) as int] == keys[str_index(
                keys,
                k2,
            ) as int]);
        }
    };
    assert forall|id2: u64| #[trigger] post.spec_id_entry(id2) == (if id2 == id {
        Some((k, point_vt(p_pre)))
    } else {
        pre.spec_id_entry(id2)
    }) by {
        if id2 != id && id_index(ids, id2) < ids.len() {
            assert(post.series_id_to_key_and_type@[id_index(ids, id2) as int] == ids[id_index(
                ids,
                id2,
            ) as int]);
        }
    };
}

// ---------------------------------------------------------------------------
// Predicate evaluation over the posting lists.

/// The id set a supported predicate tree denotes: posting lookups at
/// the leaves, intersection for `and`, union for `or`.
pub open spec fn spec_eval(sm: SeriesMap, n: Node) -> Set<u64>
    decreases n,
{
    match n {
        Node::Equal(k, v) => sm.spec_posting(spec_list_key(k@, v@)),
        Node::And(l, r) => spec_eval(sm, *l).intersect(spec_eval(sm, *r)),
        Node::Or(l, r) => spec_eval(sm, *l).union(spec_eval(sm, *r)),
        Node::Not(_) => Set::empty(),
    }
}

/// Every id a supported predicate denotes is interned.
pub proof fn lemma_eval_interned(sm: SeriesMap, n: Node)
    requires
        sm.wf(),
    ensures
        forall|x: u64|
            #[trigger] spec_eval(sm, n).contains(x) ==> id_index(
                sm.series_id_to_key_and_type@,
                x,
            ) < sm.series_id_to_key_and_type@.len(),
        spec_eval(sm, n).finite(),
    decreases n,
{
    match n {
        Node::Equal(k, v) => {
            lemma_posting_lookup(sm.posting_list@, spec_list_key(k@, v@));
        },
        Node::And(l, r) => {
            lemma_eval_interned(sm, *l);
            lemma_eval_interned(sm, *r);
            vstd::set_lib::lemma_len_intersect(spec_eval(sm, *l), spec_eval(sm, *r));
        },
        Node::Or(l, r) => {
            lemma_eval_interned(sm, *l);
            lemma_eval_interned(sm, *r);
        },
        Node::Not(_) => {},
    }
}

/// Evaluates a predicate tree to the bitmap of matching series ids;
/// fails exactly on a tree with an uninterpreted node.
pub fn evaluate_node(series_map: &SeriesMap, n: &Node) -> (r: Result<
    croaring::Treemap,
    StorageError,
>)
    requires
        series_map.wf(),
    ensures
        r is Ok <==> n.supported(),
        match r {
            Ok(t) => treemap_set(t) == spec_eval(*series_map, *n) && treemap_set(t).finite(),
            Err(_) => true,
        },
    decreases n,
{
    match n {
        Node::Equal(left, right) => Ok(
            series_map.posting_list_for_key_value(left.as_str(), right.as_str()),
        ),
        Node::And(l, r) => {
            let lt = evaluate_node(series_map, l)?;
            let rt = evaluate_node(series_map, r)?;
            Ok(treemap_and(&lt, &rt))
        },
        Node::Or(l, r) => {
            let lt = evaluate_node(series_map, l)?;
            let rt = evaluate_node(series_map, r)?;
            Ok(treemap_or(&lt, &rt))
        },
        Node::Not(_) => Err(
            StorageError {
                description: String::from_str("unsupported predicate node"),
            },
        ),
    }
}

// ---------------------------------------------------------------------------
// The partition.

/// An in-memory partition: the typed series buffers and the series
/// directory. Writes are assumed to arrive in time ascending order per
/// series; there is no limit on the number of series or points.
pub struct MemDB {
    pub series_data: SeriesData,
    pub series_map: SeriesMap,
}

/// The window of `vals` that a range read returns: from the first
/// point at or after `range.start` up to the first at or after
/// `range.end`.
pub open spec fn read_window<T>(vals: Seq<ReadPoint<T>>, range: TimestampRange) -> Seq<
    ReadPoint<T>,
> {
    let lo = first_at_or_after(vals, range.start);
    let hi = first_at_or_after(vals, range.end);
    if lo < vals.len() && lo < hi {
        vals.subrange(lo as int, hi as int)
    } else {
        Seq::empty()
    }
}

/// One write transition of the partition: the point is interned (id
/// assigned on first sight, directory unchanged otherwise) and its
/// `(time, value)` appended to the buffer of its type; the other typed
/// store is kept; the size counter grows by the point cost.
pub open spec fn write_point_post(
    pre: MemDB,
    post: MemDB,
    p_pre: PointType,
    p_post: PointType,
) -> bool {
    &&& SeriesMap::intern_post(pre.series_map, post.series_map, p_pre, p_post)
    &&& match p_post {
        PointType::I64(p) => buffer_appended(
            pre.series_data.i64_series@,
            post.series_data.i64_series@,
            p.series_id.unwrap(),
            ReadPoint { time: p.time, value: p.value },
        ) && post.series_data.f64_series == pre.series_data.f64_series,
        PointType::F64(p) => buffer_appended(
            pre.series_data.f64_series@,
            post.series_data.f64_series@,
            p.series_id.unwrap(),
            ReadPoint { time: p.time, value: p.value },
        ) && post.series_data.i64_series == pre.series_data.i64_series,
    }
    &&& post.series_data.current_size == clamp_usize(
        pre.series_data.current_size + point_cost(),
    )
}

/// A batch of write transitions, point by point, first to last.
pub open spec fn write_seq_post(
    pre: MemDB,
    post: MemDB,
    a: Seq<PointType>,
    b: Seq<PointType>,
) -> bool
    decreases a.len(),
{
    if a.len() == 0 {
        post == pre && b.len() == 0
    } else {
        exists|mid: MemDB, pm: PointType|
            #![trigger write_point_post(pre, mid, a[0], pm)]
            {
                &&& write_point_post(pre, mid, a[0], pm)
                &&& b.len() == a.len()
                &&& b[0] == pm
                &&& write_seq_post(mid, post, a.skip(1), b.skip(1))
            }
    }
}

/// One more write extends a batch of write transitions.
pub proof fn lemma_write_seq_snoc(
    pre: MemDB,
    mid: MemDB,
    post: MemDB,
    a: Seq<PointType>,
    b: Seq<PointType>,
    x: PointType,
    y: PointType,
)
    requires
        write_seq_post(pre, mid, a, b),
        write_point_post(mid, post, x, y),
    ensures
        write_seq_post(pre, post, a.push(x), b.push(y)),
    decreases a.len(),
{
    if a.len() == 0 {
        assert(a.push(x)[0] == x);
        assert(b.push(y)[0] == y);
        assert(a.push(x).skip(1) =~= Seq::<PointType>::empty());
        assert(b.push(y).skip(1) =~= Seq::<PointType>::empty());
        assert(write_seq_post(post, post, a.push(x).skip(1), b.push(y).skip(1)));
        assert(write_point_post(pre, post, a.push(x)[0], y));
    } else {
        let (m1, pm) = choose|m1: MemDB, pm: PointType|
            #![trigger write_point_post(pre, m1, a[0], pm)]
            {
                &&& write_point_post(pre, m1, a[0], pm)
                &&& b.len() == a.len()
                &&& b[0] == pm
                &&& write_seq_post(m1, mid, a.skip(1), b.skip(1))
            };
        lemma_write_seq_snoc(m1, mid, post, a.skip(1), b.skip(1), x, y);
        assert(a.push(x).skip(1) =~= a.skip(1).push(x));
        assert(b.push(y).skip(1) =~= b.skip(1).push(y));
        assert(a.push(x)[0] == a[0]);
        assert(b.push(y)[0] == b[0]);
        assert(write_point_post(pre, m1, a.push(x)[0], pm));
    }
}

/// Whether the partition's read path would return `bs` for the ids
/// `idv` over `range`: one non-empty typed window per id, in order;
/// ids with an empty window are skipped.
pub open spec fn batches_match(
    db: MemDB,
    idv: Seq<u64>,
    range: TimestampRange,
    bs: Seq<ReadBatch>,
) -> bool
    decreases idv.len(),
{
    if idv.len() == 0 {
        bs.len() == 0
    } else {
        let id = idv[0];
        match db.series_map.spec_id_entry(id) {
            None => false,
            Some(e) => {
                let rest = idv.skip(1);
                if e.1 == SeriesDataType::I64 {
                    match db.series_data.spec_i64(id) {
                        None => false,
                        Some(vals) => {
                            let w = read_window(vals, range);
                            if w.len() == 0 {
                                batches_match(db, rest, range, bs)
                            } else {
                                &&& bs.len() > 0
                                &&& bs[0].key@ == e.0
                                &&& (match bs[0].values {
                                    ReadValues::I64(v) => v@ == w,
                                    _ => false,
                                })
                                &&& batches_match(db, rest, range, bs.skip(1))
                            }
                        },
                    }
                } else {
                    match db.series_data.spec_f64(id) {
                        None => false,
                        Some(vals) => {
                            let w = read_window(vals, range);
                            if w.len() == 0 {
                                batches_match(db, rest, range, bs)
                            } else {
                                &&& bs.len() > 0
                                &&& bs[0].key@ == e.0
                                &&& (match bs[0].values {
                                    ReadValues::F64(v) => v@ == w,
                                    _ => false,
                                })
                                &&& batches_match(db, rest, range, bs.skip(1))
                            }
                        },
                    }
                }
            },
        }
    }
}

/// What the partition's read path returns for `pred` over `range`:
/// the matching ids in ascending order, one non-empty typed window per
/// id, empty windows skipped.
pub open spec fn read_post(
    db: MemDB,
    pred: Predicate,
    range: TimestampRange,
    bs: Seq<ReadBatch>,
) -> bool {
    exists|idv: Seq<u64>|
        #![trigger batches_match(db, idv, range, bs)]
        {
            &&& forall|i: int, j: int| 0 <= i < j < idv.len() ==> idv[i] < idv[j]
            &&& forall|x: u64|
                #[trigger] idv.contains(x) <==> spec_eval(
                    db.series_map,
                    pred.root.unwrap(),
                ).contains(x)
            &&& batches_match(db, idv, range, bs)
        }
}

impl MemDB {
    /// The partition invariant: both halves well-formed, and every
    /// interned id owns a buffer of its recorded type.
    pub open spec fn wf(self) -> bool {
        &&& self.series_map.wf()
        &&& self.series_data.wf()
        &&& forall|i: int|
            0 <= i < self.series_map.series_id_to_key_and_type@.len() ==> {
                let e = #[trigger] self.series_map.series_id_to_key_and_type@[i];
                if e.1.1 == SeriesDataType::I64 {
                    id_index(self.series_data.i64_series@, e.0)
                        < self.series_data.i64_series@.len()
                } else {
                    id_index(self.series_data.f64_series@, e.0)
                        < self.series_data.f64_series@.len()
                }
            }
    }

    /// An empty partition.
    pub fn new() -> (db: MemDB)
        ensures
            db.wf(),
            db.series_map.last_id == 0,
            db.series_map.series_key_to_id@.len() == 0,
            db.series_map.series_id_to_key_and_type@.len() == 0,
            db.series_map.tag_keys@.len() == 0,
            db.series_map.posting_list@.len() == 0,
            db.series_data.i64_series@.len() == 0,
            db.series_data.f64_series@.len() == 0,
            db.series_data.current_size == 0,
            db.series_map.current_size == 0,
    {
        MemDB {
            series_data: SeriesData {
                current_size: 0,
                i64_series: Vec::new(),
                f64_series: Vec::new(),
            },
            series_map: SeriesMap {
                current_size: 0,
                last_id: 0,
                series_key_to_id: Vec::new(),
                series_id_to_key_and_type: Vec::new(),
                tag_keys: Vec::new(),
                posting_list: Vec::new(),
            },
        }
    }

    /// The advisory size estimate: stored points plus directory
    /// bookkeeping.
    pub fn size(&self) -> (r: usize)
        ensures
            r == clamp_usize(self.series_data.current_size + self.series_map.current_size),
    {
        sat_add(self.series_data.current_size, self.series_map.current_size)
    }

    /// Writes one point: interns its key and appends it to the buffer
    /// of its type. On failure nothing changes and the error names the
    /// cause.
    pub fn write_point(&mut self, point: &mut PointType) -> (r: Result<(), StorageError>)
        requires
            old(self).wf(),
            old(self).series_map.last_id < u64::MAX,
        ensures
            final(self).wf(),
            match r {
                Ok(_) => write_point_post(*old(self), *final(self), *old(point), *final(point)),
                Err(_) => {
                    &&& *final(self) == *old(self)
                    &&& *final(point) == *old(point)
                    &&& (old(self).series_map.type_conflict(*old(point)) || (
                    old(self).series_map.spec_key_id(old(point).spec_series()) is None
                        && spec_index_pairs(old(point).spec_series()) is None))
                },
            },
            r is Ok <==> !(old(self).series_map.type_conflict(*old(point)) || (
            old(self).series_map.spec_key_id(old(point).spec_series()) is None
                && spec_index_pairs(old(point).spec_series()) is None)),
    {
        let ghost pre = *self;
        let ghost p_pre = *point;
        match self.series_map.insert_series(point) {
            Ok(_) => {},
            Err(e) => {
                return Err(
                    StorageError {
                        description: String::from_str(
                            "error parsing line protocol metadata ",
                        ).concat(e.description.as_str()),
                    },
                );
            },
        }
        proof {
            lemma_id_index(pre.series_map.series_id_to_key_and_type@, point.spec_series_id().unwrap());
        }
        point.write(&mut self.series_data);
        proof {
            lemma_write_point_wf(pre, *self, p_pre, *point);
        }
        Ok(())
    }

    /// Writes a batch of points, first to last; the first failing
    /// point aborts the batch, leaving earlier points applied.
    #[verifier::rlimit(50)]
    pub fn write(&mut self, points: &mut Vec<PointType>) -> (r: Result<(), StorageError>)
        requires
            old(self).wf(),
            old(self).series_map.last_id + old(points)@.len() <= u64::MAX,
        ensures
            final(self).wf(),
            match r {
                Ok(_) => write_seq_post(*old(self), *final(self), old(points)@, final(points)@),
                Err(_) => exists|k: int|
                    #![trigger old(points)@.take(k)]
                    {
                        &&& 0 <= k < old(points)@.len()
                        &&& write_seq_post(
                            *old(self),
                            *final(self),
                            old(points)@.take(k),
                            final(points)@.take(k),
                        )
                        &&& final(points)@.skip(k) == old(points)@.skip(k)
                        &&& final(points)@.len() == old(points)@.len()
                        &&& (final(self).series_map.type_conflict(old(points)@[k]) || (
                        final(self).series_map.spec_key_id(old(points)@[k].spec_series()) is None
                            && spec_index_pairs(old(points)@[k].spec_series()) is None))
                    },
            },
    {
        let ghost pre = *self;
        let ghost pts_pre = points@;
        let n = points.len();
        let mut i: usize = 0;
        proof {
            assert(pts_pre.take(0) =~= Seq::<PointType>::empty());
            assert(points@.take(0) =~= Seq::<PointType>::empty());
        }
        while i < n
            invariant
                i <= n,
                n == points@.len(),
                points@.len() == pts_pre.len(),
                pts_pre == old(points)@,
                pre == *old(self),
                self.wf(),
                pre.series_map.last_id + pts_pre.len() <= u64::MAX,
                self.series_map.last_id <= pre.series_map.last_id + i,
                points@.skip(i as int) == pts_pre.skip(i as int),
                write_seq_post(pre, *self, pts_pre.take(i as int), points@.take(i as int)),
            decreases n - i,
        {
            let ghost mid = *self;
            let ghost points_before = points@;
            let p = &mut points[i];
            let ghost p_before = *p;
            let res = self.write_point(p);
            proof {
                assert(p_before == pts_pre[i as int]) by {
                    assert(points_before.skip(i as int)[0] == points_before[i as int]);
                    assert(pts_pre.skip(i as int)[0] == pts_pre[i as int]);
                }
            }
            match res {
                Ok(_) => {},
                Err(e) => {
                    proof {
                        assert(pts_pre == old(points)@);
                        assert(old(points)@.take(i as int) =~= pts_pre.take(i as int));
                        assert(points@.take(i as int) =~= points_before.take(i as int));
                        assert(points@.skip(i as int) =~= pts_pre.skip(i as int)) by {
                            assert forall|j: int|
                                #![trigger points@.skip(i as int)[j]]
                                0 <= j < points@.skip(i as int).len() implies points@.skip(
                                i as int,
                            )[j] == pts_pre.skip(i as int)[j] by {
                                assert(points@.skip(i as int)[j] == points@[i + j]);
                                assert(pts_pre.skip(i as int)[j] == pts_pre[i + j]);
                                if j == 0 {
                                } else {
                                    assert(points@[i + j] == points_before[i + j]);
                                    assert(points_before.skip(i as int)[j] == points_before[i
                                        + j]);
                                }
                            }
                        }
                        assert(write_seq_post(
                            *old(self),
                            *self,
                            old(points)@.take(i as int),
                            points@.take(i as int),
                        ));
                        assert(points@.skip(i as int) == old(points)@.skip(i as int));
                        assert((i as int) < old(points)@.len());
                        assert(old(points)@[i as int] == p_before);
                        assert(self.series_map.type_conflict(old(points)@[i as int]) || (
                        self.series_map.spec_key_id(old(points)@[i as int].spec_series()) is None
                            && spec_index_pairs(old(points)@[i as int].spec_series()) is None));
                    }
                    return Err(e);
                },
            }
            proof {
                lemma_write_seq_snoc(
                    pre,
                    mid,
                    *self,
                    pts_pre.take(i as int),
                    points_before.take(i as int),
                    pts_pre[i as int],
                    points@[i as int],
                );
                assert(pts_pre.take(i + 1) =~= pts_pre.take(i as int).push(pts_pre[i as int]));
                assert(points@.take(i + 1) =~= points_before.take(i as int).push(
                    points@[i as int],
                )) by {
                    assert forall|j: int|
                        #![trigger points@.take(i + 1)[j]]
                        0 <= j < i + 1 implies points@.take(i + 1)[j] == points_before.take(
                        i as int,
                    ).push(points@[i as int])[j] by {
                        if j < i {
                            assert(points@[j] == points_before[j]);
                        }
                    }
                };
                assert(points@.skip(i + 1) =~= pts_pre.skip(i + 1)) by {
                    assert forall|j: int|
                        #![trigger points@.skip(i + 1)[j]]
                        0 <= j < points@.skip(i + 1).len() implies points@.skip(i + 1)[j]
                        == pts_pre.skip(i + 1)[j] by {
                        assert(points@.skip(i + 1)[j] == points@[i + 1 + j]);
                        assert(points@[i + 1 + j] == points_before[i + 1 + j]);
                        assert(points_before.skip(i as int)[j + 1] == points_before[i + 1 + j]);
                        assert(pts_pre.skip(i as int)[j + 1] == pts_pre[i + 1 + j]);
                        assert(pts_pre.skip(i + 1)[j] == pts_pre[i + 1 + j]);
                    }
                };
            }
            i = i + 1;
        }
        proof {
            assert(pts_pre.take(n as int) =~= pts_pre);
            assert(points@.take(n as int) =~= points@);
            assert(i == n);
            assert(write_seq_post(pre, *self, pts_pre.take(i as int), points@.take(i as int)));
            assert(write_seq_post(pre, *self, pts_pre, points@));
            assert(pre == *old(self));
            assert(pts_pre == old(points)@);
        }
        Ok(())
    }

    /// All known tag keys, in ascending order. The time range and
    /// predicate are accepted for interface compatibility and ignored.
    pub fn get_tag_keys(&self, _range: &TimestampRange, _predicate: &Predicate) -> (r: Result<
        Vec<String>,
        StorageError,
    >)
        requires
            self.wf(),
        ensures
            r is Ok,
            r.unwrap()@.map_values(|s: String| s@) == self.series_map.tag_keys@.map_values(
                |e: (String, Vec<String>)| e.0@,
            ),
            forall|j: int|
                0 <= j < r.unwrap()@.len() ==> self.series_map.spec_tag_set(
                    (#[trigger] r.unwrap()@[j])@,
                ) != Set::<Seq<char>>::empty(),
    {
        let mut keys: Vec<String> = Vec::new();
        let n = self.series_map.tag_keys.len();
        let mut i: usize = 0;
        while i < n
            invariant
                i <= n,
                n == self.series_map.tag_keys@.len(),
                keys@.len() == i,
                forall|j: int|
                    0 <= j < i ==> (#[trigger] keys@[j])@ == self.series_map.tag_keys@[j].0@,
            decreases n - i,
        {
            keys.push(self.series_map.tag_keys[i].0.clone());
            i = i + 1;
        }
        proof {
            assert(keys@.map_values(|s: String| s@) =~= self.series_map.tag_keys@.map_values(
                |e: (String, Vec<String>)| e.0@,
            ));
            assert forall|j: int|
                0 <= j < keys@.len() implies self.series_map.spec_tag_set(
                (#[trigger] keys@[j])@,
            ) != Set::<Seq<char>>::empty() by {
                let d = self.series_map.tag_keys@;
                assert(d[j].1@.len() > 0);
                let w = d[j].1@[0]@;
                assert(dict_set(d, keys@[j]@).contains(w));
                assert(!Set::<Seq<char>>::empty().contains(w));
            };
        }
        Ok(keys)
    }

    /// All values observed under `tag_key`, in ascending order; empty
    /// for an unknown key. The time range and predicate are ignored.
    pub fn get_tag_values(
        &self,
        tag_key: &str,
        _range: &TimestampRange,
        _predicate: &Predicate,
    ) -> (r: Result<Vec<String>, StorageError>)
        ensures
            r is Ok,
            ({
                let d = self.series_map.tag_keys@;
                let ki = str_index(d, tag_key@);
                if ki < d.len() {
                    r.unwrap()@.map_values(|s: String| s@) == d[ki as int].1@.map_values(
                        |s: String| s@,
                    )
                } else {
                    r.unwrap()@.len() == 0
                }
            }),
    {
        proof {
            lemma_str_index(self.series_map.tag_keys@, tag_key@);
        }
        let ki = find_str_entry(&self.series_map.tag_keys, tag_key);
        let mut values: Vec<String> = Vec::new();
        if ki >= self.series_map.tag_keys.len() {
            return Ok(values);
        }
        let entry = &self.series_map.tag_keys[ki];
        let n = entry.1.len();
        let mut i: usize = 0;
        while i < n
            invariant
                i <= n,
                n == entry.1@.len(),
                values@.len() == i,
                forall|j: int| 0 <= j < i ==> (#[trigger] values@[j])@ == entry.1@[j]@,
            decreases n - i,
        {
            values.push(entry.1[i].clone());
            i = i + 1;
        }
        proof {
            assert(values@.map_values(|s: String| s@) =~= entry.1@.map_values(|s: String| s@));
        }
        Ok(values)
    }

    /// Evaluates the predicate, then returns one non-empty batch per
    /// matching series, in ascending id order, holding the window of
    /// its points within `range`. The batch size hint is accepted for
    /// interface compatibility and ignored.
    #[verifier::rlimit(50)]
    pub fn read(
        &self,
        _batch_size: usize,
        predicate: &Predicate,
        range: &TimestampRange,
    ) -> (r: Result<Vec<ReadBatch>, StorageError>)
        requires
            self.wf(),
        ensures
            r is Ok <==> (predicate.root matches Some(root) && root.supported()),
            match r {
                Ok(batches) => read_post(*self, *predicate, *range, batches@),
                Err(_) => true,
            },
    {
        let root = match &predicate.root {
            Some(r) => r,
            None => {
                return Err(
                    StorageError {
                        description: String::from_str("expected root node to evaluate"),
                    },
                );
            },
        };
        let map = match evaluate_node(&self.series_map, root) {
            Ok(m) => m,
            Err(e) => {
                return Err(e);
            },
        };
        proof {
            lemma_eval_interned(self.series_map, *root);
        }
        let ids = treemap_to_vec(&map);
        let mut batches: Vec<ReadBatch> = Vec::new();
        let mut i: usize = ids.len();
        proof {
            assert(ids@.skip(i as int) =~= Seq::<u64>::empty());
        }
        while i > 0
            invariant
                i <= ids@.len(),
                self.wf(),
                forall|j: int|
                    0 <= j < ids@.len() ==> id_index(
                        self.series_map.series_id_to_key_and_type@,
                        #[trigger] ids@[j],
                    ) < self.series_map.series_id_to_key_and_type@.len(),
                batches_match(*self, ids@.skip(i as int), *range, batches@),
            decreases i,
        {
            i = i - 1;
            let id = ids[i];
            proof {
                lemma_id_index(self.series_map.series_id_to_key_and_type@, id);
                assert(ids@.skip(i as int)[0] == id);
                assert(ids@.skip(i as int).skip(1) =~= ids@.skip(i as int + 1));
            }
            let ei = find_id_entry(&self.series_map.series_id_to_key_and_type, id);
            let entry = &self.series_map.series_id_to_key_and_type[ei];
            let key = &entry.1.0;
            match entry.1.1 {
                SeriesDataType::I64 => {
                    proof {
                        lemma_id_index(self.series_data.i64_series@, id);
                    }
                    let bi = find_id_entry(&self.series_data.i64_series, id);
                    let vals = self.series_data.i64_series[bi].1.read(range);
                    if vals.len() > 0 {
                        let batch = ReadBatch { key: key.clone(), values: ReadValues::I64(vals) };
                        let ghost bs_before = batches@;
                        batches.insert(0, batch);
                        proof {
                            bs_before.insert_ensures(0, batches@[0]);
                            assert(batches@.skip(1) =~= bs_before);
                        }
                    }
                },
                SeriesDataType::F64 => {
                    proof {
                        lemma_id_index(self.series_data.f64_series@, id);
                    }
                    let bi = find_id_entry(&self.series_data.f64_series, id);
                    let vals = self.series_data.f64_series[bi].1.read(range);
                    if vals.len() > 0 {
                        let batch = ReadBatch { key: key.clone(), values: ReadValues::F64(vals) };
                        let ghost bs_before = batches@;
                        batches.insert(0, batch);
                        proof {
                            bs_before.insert_ensures(0, batches@[0]);
                            assert(batches@.skip(1) =~= bs_before);
                        }
                    }
                },
            }
        }
        proof {
            assert(ids@.skip(0) =~= ids@);
            assert(batches_match(*self, ids@, *range, batches@));
            assert(forall|i: int, j: int| 0 <= i < j < ids@.len() ==> ids@[i] < ids@[j]);
            assert forall|x: u64| #[trigger] ids@.contains(x) <==> spec_eval(
                self.series_map,
                predicate.root.unwrap(),
            ).contains(x) by {
                if spec_eval(self.series_map, predicate.root.unwrap()).contains(x) {
                    assert(treemap_set(map).contains(x));
                }
                if ids@.contains(x) {
                    let j = choose|j: int| 0 <= j < ids@.len() && ids@[j] == x;
                    assert(treemap_set(map).contains(ids@[j]));
                }
            };
            assert(read_post(*self, *predicate, *range, batches@));
        }
        Ok(batches)
    }
}

/// After an append, the id's buffer holds its old points plus the new
/// one.
proof fn lemma_buffer_after_append<T>(
    pre: Seq<(u64, SeriesBuffer<T>)>,
    post: Seq<(u64, SeriesBuffer<T>)>,
    id: u64,
    rp: ReadPoint<T>,
)
    requires
        buffer_appended(pre, post, id, rp),
    ensures
        id_index(post, id) < post.len(),
        post[id_index(post, id) as int].1.values@ == (if id_index(pre, id) < pre.len() {
            pre[id_index(pre, id) as int].1.values@.push(rp)
        } else {
            seq![rp]
        }),
{
    lemma_id_index(pre, id);
    lemma_id_index(post, id);
    let bi = id_index(pre, id);
    if bi < pre.len() {
        assert forall|j: int| 0 <= j < pre.len() implies (#[trigger] pre[j]).0 == post[j].0 by {
            if j != bi {
                assert(post[j] == pre[j]);
            }
        };
        lemma_id_index_same_u64_keys(pre, post, id);
    } else {
        assert(post =~= pre.push(post[pre.len() as int]));
        lemma_id_index_push(pre, post[pre.len() as int], id);
        assert(post[pre.len() as int].1.values@ =~= seq![rp]);
    }
}

/// The read window of a buffer whose last two points close the range
/// ends with exactly those points.
proof fn lemma_window_tail<T>(vals: Seq<ReadPoint<T>>, range: TimestampRange)
    requires
        vals.len() >= 2,
        forall|j: int| 0 <= j < vals.len() - 2 ==> (#[trigger] vals[j]).time <= range.start,
        vals[vals.len() - 2].time == range.start,
        vals[vals.len() - 1].time < range.end,
        range.start < range.end,
    ensures
        read_window(vals, range).len() >= 2,
        read_window(vals, range)[read_window(vals, range).len() - 2] == vals[vals.len() - 2],
        read_window(vals, range)[read_window(vals, range).len() - 1] == vals[vals.len() - 1],
{
    lemma_first_at_or_after(vals, range.start);
    lemma_first_at_or_after(vals, range.end);
    let n = vals.len();
    let lo = first_at_or_after(vals, range.start);
    let hi = first_at_or_after(vals, range.end);
    assert(lo <= n - 2) by {
        if lo > n - 2 {
            assert(vals[n - 2].time < range.start);
        }
    };
    assert(hi == n) by {
        if hi < n {
            assert(vals[hi as int].time >= range.end);
            if hi < n - 2 {
                assert(vals[hi as int].time <= range.start);
            }
        }
    };
}

/// A matching id with a non-empty window always surfaces as a batch.
proof fn lemma_batches_match_extract(
    db: MemDB,
    idv: Seq<u64>,
    range: TimestampRange,
    bs: Seq<ReadBatch>,
    i: int,
)
    requires
        batches_match(db, idv, range, bs),
        0 <= i < idv.len(),
        db.series_map.spec_id_entry(idv[i]) is Some,
    ensures
        ({
            let id = idv[i];
            let e = db.series_map.spec_id_entry(id).unwrap();
            if e.1 == SeriesDataType::I64 {
                db.series_data.spec_i64(id) matches Some(vals) && (read_window(vals, range).len()
                    > 0 ==> exists|bi: int|
                    0 <= bi < bs.len() && (#[trigger] bs[bi]).key@ == e.0 && (match bs[bi].values {
                        ReadValues::I64(v) => v@ == read_window(vals, range),
                        _ => false,
                    }))
            } else {
                db.series_data.spec_f64(id) matches Some(vals) && (read_window(vals, range).len()
                    > 0 ==> exists|bi: int|
                    0 <= bi < bs.len() && (#[trigger] bs[bi]).key@ == e.0 && (match bs[bi].values {
                        ReadValues::F64(v) => v@ == read_window(vals, range),
                        _ => false,
                    }))
            }
        }),
    decreases idv.len(),
{
    let id0 = idv[0];
    let e0 = db.series_map.spec_id_entry(id0).unwrap();
    if i == 0 {
        if e0.1 == SeriesDataType::I64 {
            let vals = db.series_data.spec_i64(id0).unwrap();
            if read_window(vals, range).len() > 0 {
                assert(bs[0].key@ == e0.0);
            }
        } else {
            let vals = db.series_data.spec_f64(id0).unwrap();
            if read_window(vals, range).len() > 0 {
                assert(bs[0].key@ == e0.0);
            }
        }
    } else {
        let rest = idv.skip(1);
        assert(rest[i - 1] == idv[i]);
        let skipped = if e0.1 == SeriesDataType::I64 {
            read_window(db.series_data.spec_i64(id0).unwrap(), range).len() == 0
        } else {
            read_window(db.series_data.spec_f64(id0).unwrap(), range).len() == 0
        };
        if skipped {
            lemma_batches_match_extract(db, rest, range, bs, i - 1);
        } else {
            lemma_batches_match_extract(db, rest, range, bs.skip(1), i - 1);
            let id = idv[i];
            let e = db.series_map.spec_id_entry(id).unwrap();
            if e.1 == SeriesDataType::I64 {
                let vals = db.series_data.spec_i64(id).unwrap();
                if read_window(vals, range).len() > 0 {
                    let bi = choose|bi: int|
                        0 <= bi < bs.skip(1).len() && (#[trigger] bs.skip(1)[bi]).key@ == e.0 && (
                        match bs.skip(1)[bi].values {
                            ReadValues::I64(v) => v@ == read_window(vals, range),
                            _ => false,
                        });
                    assert(bs[bi + 1] == bs.skip(1)[bi]);
                }
            } else {
                let vals = db.series_data.spec_f64(id).unwrap();
                if read_window(vals, range).len() > 0 {
                    let bi = choose|bi: int|
                        0 <= bi < bs.skip(1).len() && (#[trigger] bs.skip(1)[bi]).key@ == e.0 && (
                        match bs.skip(1)[bi].values {
                            ReadValues::F64(v) => v@ == read_window(vals, range),
                            _ => false,
                        });
                    assert(bs[bi + 1] == bs.skip(1)[bi]);
                }
            }
        }
    }
}

/// For any partition and any two writes `w1` then `w2` with the same
/// series key, the same value type, and timestamps `t1 <= t2` arriving
/// in the partition's assumed monotonic order, a read whose predicate
/// matches that series over `[t1, t2 + 1)` returns a batch for the key
/// that ends with the two written points, in that order.
#[verifier::rlimit(100)]
pub proof fn lemma_write_write_read(
    db0: MemDB,
    db1: MemDB,
    db2: MemDB,
    w1_pre: PointType,
    w1: PointType,
    w2_pre: PointType,
    w2: PointType,
    pred: Predicate,
    range: TimestampRange,
    batches: Seq<ReadBatch>,
)
    requires
        db0.wf(),
        db0.series_map.last_id < u64::MAX,
        write_point_post(db0, db1, w1_pre, w1),
        write_point_post(db1, db2, w2_pre, w2),
        w1_pre.spec_series() == w2_pre.spec_series(),
        point_vt(w1_pre) == point_vt(w2_pre),
        w1_pre.spec_time() <= w2_pre.spec_time(),
        w2_pre.spec_time() < i64::MAX,
        range.start == w1_pre.spec_time(),
        range.end == w2_pre.spec_time() + 1,
        // the partition's standing assumption: earlier points of this
        // series arrived no later than `t1`
        (if point_vt(w1_pre) == SeriesDataType::I64 {
            match db0.series_data.spec_i64(w1.spec_series_id().unwrap()) {
                Some(vals) => forall|j: int|
                    0 <= j < vals.len() ==> (#[trigger] vals[j]).time <= w1_pre.spec_time(),
                None => true,
            }
        } else {
            match db0.series_data.spec_f64(w1.spec_series_id().unwrap()) {
                Some(vals) => forall|j: int|
                    0 <= j < vals.len() ==> (#[trigger] vals[j]).time <= w1_pre.spec_time(),
                None => true,
            }
        }),
        !db0.series_map.type_conflict(w1_pre),
        pred.root is Some,
        pred.root.unwrap().supported(),
        spec_eval(db2.series_map, pred.root.unwrap()).contains(w1.spec_series_id().unwrap()),
        read_post(db2, pred, range, batches),
    ensures
        exists|bi: int|
            0 <= bi < batches.len() && (#[trigger] batches[bi]).key@ == w1_pre.spec_series() && (
            match batches[bi].values {
                ReadValues::I64(v) => {
                    &&& v@.len() >= 2
                    &&& w1_pre matches PointType::I64(a) && v@[v@.len() - 2] == (ReadPoint {
                        time: a.time,
                        value: a.value,
                    })
                    &&& w2_pre matches PointType::I64(b) && v@[v@.len() - 1] == (ReadPoint {
                        time: b.time,
                        value: b.value,
                    })
                },
                ReadValues::F64(v) => {
                    &&& v@.len() >= 2
                    &&& w1_pre matches PointType::F64(a) && v@[v@.len() - 2] == (ReadPoint {
                        time: a.time,
                        value: a.value,
                    })
                    &&& w2_pre matches PointType::F64(b) && v@[v@.len() - 1] == (ReadPoint {
                        time: b.time,
                        value: b.value,
                    })
                },
            }),
{
    let k = w1_pre.spec_series();
    let id = w1.spec_series_id().unwrap();
    let t1 = w1_pre.spec_time();
    let t2 = w2_pre.spec_time();
    // the id is assigned at the first write and stable at the second
    assert(SeriesMap::intern_post(db0.series_map, db1.series_map, w1_pre, w1));
    assert(db1.series_map.spec_key_id(k) == Some(id));
    assert(same_point_with_id(w1_pre, w1, id));
    assert(SeriesMap::intern_post(db1.series_map, db2.series_map, w2_pre, w2));
    assert(db2.series_map == db1.series_map);
    assert(same_point_with_id(w2_pre, w2, id));
    assert(db1.series_map.spec_id_entry(id) == Some((k, point_vt(w1_pre)))) by {
        match db0.series_map.spec_key_id(k) {
            Some(id0) => {
                assert(id0 == id);
                assert(db1.series_map == db0.series_map);
                let keys = db0.series_map.series_key_to_id@;
                let ids = db0.series_map.series_id_to_key_and_type@;
                lemma_str_index(keys, k);
                let ki = str_index(keys, k);
                assert(ki < keys.len());
                assert(keys[ki as int].1 == id);
                assert(id_index(ids, id) < ids.len() && ids[id_index(ids, id) as int].1.0@
                    == keys[ki as int].0@);
                assert(db0.series_map.spec_id_entry(id) is Some);
                assert(db0.series_map.spec_id_entry(id).unwrap().0 == k);
                assert(db0.series_map.spec_id_entry(id).unwrap().1 == point_vt(w1_pre));
            },
            None => {},
        }
    };
    assert(db2.series_map.spec_id_entry(id) == Some((k, point_vt(w1_pre))));
    // the reader's witness
    let idv = choose|idv: Seq<u64>|
        #![trigger batches_match(db2, idv, range, batches)]
        {
            &&& forall|i: int, j: int| 0 <= i < j < idv.len() ==> idv[i] < idv[j]
            &&& forall|x: u64|
                #[trigger] idv.contains(x) <==> spec_eval(
                    db2.series_map,
                    pred.root.unwrap(),
                ).contains(x)
            &&& batches_match(db2, idv, range, batches)
        };
    assert(idv.contains(id));
    let i = choose|i: int| 0 <= i < idv.len() && idv[i] == id;
    if point_vt(w1_pre) == SeriesDataType::I64 {
        let a = w1->I64_0;
        let b = w2_pre->I64_0;
        let rp1 = ReadPoint { time: a.time, value: a.value };
        let rp2 = ReadPoint { time: b.time, value: b.value };
        lemma_buffer_after_append(
            db0.series_data.i64_series@,
            db1.series_data.i64_series@,
            id,
            rp1,
        );
        lemma_buffer_after_append(
            db1.series_data.i64_series@,
            db2.series_data.i64_series@,
            id,
            rp2,
        );
        let vals = db2.series_data.spec_i64(id).unwrap();
        let n = vals.len();
        assert(n >= 2);
        assert(vals[n - 2] == rp1 && vals[n - 1] == rp2);
        assert forall|j: int| 0 <= j < n - 2 implies (#[trigger] vals[j]).time <= t1 by {
            let db1v = db1.series_data.spec_i64(id).unwrap();
            assert(vals == db1v.push(rp2));
            assert(vals[j] == db1v[j]);
            match db0.series_data.spec_i64(id) {
                Some(pv) => {
                    assert(db1v == pv.push(rp1));
                    assert(j < pv.len());
                    assert(db1v[j] == pv[j]);
                    assert(pv[j].time <= t1);
                },
                None => {
                    assert(db1v == seq![rp1]);
                    assert(n == 2);
                },
            }
        };
        lemma_window_tail(vals, range);
        let w = read_window(vals, range);
        lemma_batches_match_extract(db2, idv, range, batches, i);
        let bi = choose|bi: int|
            0 <= bi < batches.len() && (#[trigger] batches[bi]).key@ == k && (
            match batches[bi].values {
                ReadValues::I64(v) => v@ == read_window(vals, range),
                _ => false,
            });
        assert(batches[bi].key@ == w1_pre.spec_series());
    } else {
        let a = w1->F64_0;
        let b = w2_pre->F64_0;
        let rp1 = ReadPoint { time: a.time, value: a.value };
        let rp2 = ReadPoint { time: b.time, value: b.value };
        lemma_buffer_after_append(
            db0.series_data.f64_series@,
            db1.series_data.f64_series@,
            id,
            rp1,
        );
        lemma_buffer_after_append(
            db1.series_data.f64_series@,
            db2.series_data.f64_series@,
            id,
            rp2,
        );
        let vals = db2.series_data.spec_f64(id).unwrap();
        let n = vals.len();
        assert(n >= 2);
        assert(vals[n - 2] == rp1 && vals[n - 1] == rp2);
        assert forall|j: int| 0 <= j < n - 2 implies (#[trigger] vals[j]).time <= t1 by {
            let db1v = db1.series_data.spec_f64(id).unwrap();
            assert(vals == db1v.push(rp2));
            assert(vals[j] == db1v[j]);
            match db0.series_data.spec_f64(id) {
                Some(pv) => {
                    assert(db1v == pv.push(rp1));
                    assert(j < pv.len());
                    assert(db1v[j] == pv[j]);
                    assert(pv[j].time <= t1);
                },
                None => {
                    assert(db1v == seq![rp1]);
                    assert(n == 2);
                },
            }
        };
        lemma_window_tail(vals, range);
        let w = read_window(vals, range);
        lemma_batches_match_extract(db2, idv, range, batches, i);
        let bi = choose|bi: int|
            0 <= bi < batches.len() && (#[trigger] batches[bi]).key@ == k && (
            match batches[bi].values {
                ReadValues::F64(v) => v@ == read_window(vals, range),
                _ => false,
            });
        assert(batches[bi].key@ == w1_pre.spec_series());
    }
}

/// One write keeps the partition invariant.
proof fn lemma_write_point_wf(pre: MemDB, post: MemDB, p_pre: PointType, p_post: PointType)
    requires
        pre.wf(),
        pre.series_map.last_id < u64::MAX,
        SeriesMap::intern_post(pre.series_map, post.series_map, p_pre, p_post),
        match p_post {
            PointType::I64(p) => buffer_appended(
                pre.series_data.i64_series@,
                post.series_data.i64_series@,
                p.series_id.unwrap(),
                ReadPoint { time: p.time, value: p.value },
            ) && post.series_data.f64_series == pre.series_data.f64_series,
            PointType::F64(p) => buffer_appended(
                pre.series_data.f64_series@,
                post.series_data.f64_series@,
                p.series_id.unwrap(),
                ReadPoint { time: p.time, value: p.value },
            ) && post.series_data.i64_series == pre.series_data.i64_series,
        },
        post.series_data.wf(),
        post.series_map.wf(),
    ensures
        post.wf(),
{
    let k = p_pre.spec_series();
    let post_ids = post.series_map.series_id_to_key_and_type@;
    let pre_ids = pre.series_map.series_id_to_key_and_type@;
    assert forall|i: int| 0 <= i < post_ids.len() implies {
        let e = #[trigger] post_ids[i];
        if e.1.1 == SeriesDataType::I64 {
            id_index(post.series_data.i64_series@, e.0) < post.series_data.i64_series@.len()
        } else {
            id_index(post.series_data.f64_series@, e.0) < post.series_data.f64_series@.len()
        }
    } by {
        let e = post_ids[i];
        lemma_buffer_appended_keeps(
            pre.series_data.i64_series@,
            post.series_data.i64_series@,
            p_post,
            e.0,
        );
        lemma_buffer_appended_keeps_f(
            pre.series_data.f64_series@,
            post.series_data.f64_series@,
            p_post,
            e.0,
        );
        // the first entry for e.0 is e itself, by uniqueness
        lemma_id_index(post_ids, e.0);
        assert(id_index(post_ids, e.0) == i) by {
            if id_index(post_ids, e.0) < i {
                assert(post_ids[id_index(post_ids, e.0) as int].0 != post_ids[i].0);
            }
        }
        assert(post.series_map.spec_id_entry(e.0) == Some((e.1.0@, e.1.1)));
        match pre.series_map.spec_key_id(k) {
            Some(id) => {
                assert(post.series_map == pre.series_map);
                assert(same_point_with_id(p_pre, p_post, id));
                lemma_id_index(pre_ids, e.0);
            },
            None => {
                let id = (pre.series_map.last_id + 1) as u64;
                if e.0 == id {
                    assert(post.series_map.spec_id_entry(id) == Some((k, point_vt(p_pre))));
                    assert(e.1.1 == point_vt(p_pre));
                } else {
                    assert(post.series_map.spec_id_entry(e.0) == pre.series_map.spec_id_entry(
                        e.0,
                    ));
                    lemma_id_index(pre_ids, e.0);
                    assert(id_index(pre_ids, e.0) < pre_ids.len());
                    assert(pre_ids[id_index(pre_ids, e.0) as int].1.1 == e.1.1);
                    assert(pre_ids[id_index(pre_ids, e.0) as int].0 == e.0);
                }
            },
        }
    };
}

/// A buffer append keeps every present id present (integer store).
proof fn lemma_buffer_appended_keeps(
    pre: Seq<(u64, SeriesBuffer<i64>)>,
    post: Seq<(u64, SeriesBuffer<i64>)>,
    p_post: PointType,
    q: u64,
)
    ensures
        (match p_post {
            PointType::I64(p) => buffer_appended(
                pre,
                post,
                p.series_id.unwrap(),
                ReadPoint { time: p.time, value: p.value },
            ),
            PointType::F64(_) => post == pre,
        }) ==> {
            &&& id_index(pre, q) < pre.len() ==> id_index(post, q) < post.len()
            &&& (p_post matches PointType::I64(p) && p.series_id.unwrap() == q ==> id_index(
                post,
                q,
            ) < post.len())
        },
{
    match p_post {
        PointType::I64(p) => {
            let id = p.series_id.unwrap();
            let rp = ReadPoint { time: p.time, value: p.value };
            if buffer_appended(pre, post, id, rp) {
                lemma_id_index(pre, id);
                lemma_id_index(pre, q);
                lemma_id_index(post, q);
                let bi = id_index(pre, id);
                if bi < pre.len() {
                    lemma_id_index_same_u64_keys(pre, post, q);
                } else {
                    lemma_id_index_push_entry(pre, post, q, id);
                }
            }
        },
        PointType::F64(_) => {},
    }
}

/// A buffer append keeps every present id present (float store).
proof fn lemma_buffer_appended_keeps_f(
    pre: Seq<(u64, SeriesBuffer<u64>)>,
    post: Seq<(u64, SeriesBuffer<u64>)>,
    p_post: PointType,
    q: u64,
)
    ensures
        (match p_post {
            PointType::F64(p) => buffer_appended(
                pre,
                post,
                p.series_id.unwrap(),
                ReadPoint { time: p.time, value: p.value },
            ),
            PointType::I64(_) => post == pre,
        }) ==> {
            &&& id_index(pre, q) < pre.len() ==> id_index(post, q) < post.len()
            &&& (p_post matches PointType::F64(p) && p.series_id.unwrap() == q ==> id_index(
                post,
                q,
            ) < post.len())
        },
{
    match p_post {
        PointType::F64(p) => {
            let id = p.series_id.unwrap();
            let rp = ReadPoint { time: p.time, value: p.value };
            if buffer_appended(pre, post, id, rp) {
                lemma_id_index(pre, id);
                lemma_id_index(pre, q);
                lemma_id_index(post, q);
                let bi = id_index(pre, id);
                if bi < pre.len() {
                    lemma_id_index_same_u64_keys(pre, post, q);
                } else {
                    lemma_id_index_push_entry(pre, post, q, id);
                }
            }
        },
        PointType::I64(_) => {},
    }
}

/// Pointwise equal ids give the same id index.
proof fn lemma_id_index_same_u64_keys<V>(a: Seq<(u64, V)>, b: Seq<(u64, V)>, k: u64)
    requires
        a.len() == b.len(),
        forall|i: int| 0 <= i < a.len() ==> (#[trigger] a[i]).0 == (#[trigger] b[i]).0,
    ensures
        id_index(a, k) == id_index(b, k),
    decreases a.len(),
{
    if a.len() > 0 {
        if a[0].0 == k {
        } else {
            assert forall|i: int|
                0 <= i < a.skip(1).len() implies (#[trigger] a.skip(1)[i]).0 == (#[trigger] b.skip(
                1,
            )[i]).0 by {
                assert(a.skip(1)[i] == a[i + 1]);
                assert(b.skip(1)[i] == b[i + 1]);
            };
            lemma_id_index_same_u64_keys(a.skip(1), b.skip(1), k);
        }
    }
}

/// After appending a fresh entry, previously present ids and the new
/// id are present.
proof fn lemma_id_index_push_entry<V>(a: Seq<(u64, V)>, b: Seq<(u64, V)>, q: u64, id: u64)
    requires
        b.len() == a.len() + 1,
        b.take(a.len() as int) == a,
        b[a.len() as int].0 == id,
    ensures
        id_index(a, q) < a.len() ==> id_index(b, q) < b.len(),
        q == id ==> id_index(b, q) < b.len(),
{
    assert(b =~= a.push(b[a.len() as int]));
    lemma_id_index_push(a, b[a.len() as int], q);
    lemma_id_index(a, q);
}

} // verus!
