//! Typed points and the canonical series-key encoding.
//!
//! A series key is `measurement,tag=value,...,tag=value<TAB>field`.
//! `index_pairs` decomposes such a key into the `(tag key, tag value)`
//! pairs the partition indexes: the measurement under `_m`, each tag
//! under its own name, and the field under `_f`.

use vstd::prelude::*;

verus! {

/// Error returned for a series key that does not follow the canonical
/// encoding.
#[derive(Debug, Clone, PartialEq, Eq)]
pub struct ParseError {
    pub description: String,
}

/// One `(tag key, tag value)` pair extracted from a series key.
#[derive(Debug, Clone, PartialEq, Eq)]
pub struct Pair {
    pub key: String,
    pub value: String,
}

impl View for Pair {
    type V = (Seq<char>, Seq<char>);

    open spec fn view(&self) -> (Seq<char>, Seq<char>) {
        (self.key@, self.value@)
    }
}

/// A typed observation carrying its series key and, after interning,
/// its assigned series id.
#[derive(Debug, Clone, PartialEq, Eq)]
pub struct Point<T> {
    pub series: String,
    pub series_id: Option<u64>,
    pub time: i64,
    pub value: T,
}

/// A point of one of the two supported value types. Float-typed points
/// carry the IEEE-754 bit pattern of their value; the engine stores and
/// orders points by time and never interprets the bits.
#[derive(Debug, Clone, PartialEq, Eq)]
pub enum PointType {
    I64(Point<i64>),
    F64(Point<u64>),
}

impl PointType {
    /// Builds an integer-typed point.
    pub fn new_i64(series: String, value: i64, time: i64) -> (p: PointType)
        ensures
            p == (PointType::I64(Point { series, series_id: None::<u64>, time, value })),
    {
        PointType::I64(Point { series, series_id: None, time, value })
    }

    /// Builds a float-typed point from the bit pattern of its value.
    pub fn new_f64_bits(series: String, value: u64, time: i64) -> (p: PointType)
        ensures
            p == (PointType::F64(Point { series, series_id: None::<u64>, time, value })),
    {
        PointType::F64(Point { series, series_id: None, time, value })
    }

    /// The series key of the point.
    pub open spec fn spec_series(&self) -> Seq<char> {
        match self {
            PointType::I64(p) => p.series@,
            PointType::F64(p) => p.series@,
        }
    }

    /// The assigned series id, if any.
    pub open spec fn spec_series_id(&self) -> Option<u64> {
        match self {
            PointType::I64(p) => p.series_id,
            PointType::F64(p) => p.series_id,
        }
    }

    /// The timestamp of the point.
    pub open spec fn spec_time(&self) -> i64 {
        match self {
            PointType::I64(p) => p.time,
            PointType::F64(p) => p.time,
        }
    }

    pub fn series(&self) -> (s: &String)
        ensures
            s@ == self.spec_series(),
    {
        match self {
            PointType::I64(p) => &p.series,
            PointType::F64(p) => &p.series,
        }
    }

    pub fn series_id(&self) -> (r: Option<u64>)
        ensures
            r == self.spec_series_id(),
    {
        match self {
            PointType::I64(p) => p.series_id,
            PointType::F64(p) => p.series_id,
        }
    }

    pub fn time(&self) -> (t: i64)
        ensures
            t == self.spec_time(),
    {
        match self {
            PointType::I64(p) => p.time,
            PointType::F64(p) => p.time,
        }
    }

    /// Records the id assigned by the series directory; every other
    /// field is kept.
    pub fn set_series_id(&mut self, id: u64)
        ensures
            same_point_with_id(*old(self), *final(self), id),
            final(self).spec_series_id() == Some(id),
            final(self).spec_series() == old(self).spec_series(),
            final(self).spec_time() == old(self).spec_time(),
    {
        match self {
            PointType::I64(p) => p.series_id = Some(id),
            PointType::F64(p) => p.series_id = Some(id),
        }
    }

    /// The index pairs of the point's series key.
    pub fn index_pairs(&self) -> (r: Result<Vec<Pair>, ParseError>)
        ensures
            match r {
                Ok(ps) => spec_index_pairs(self.spec_series()) == Some(
                    ps@.map_values(|p: Pair| p@),
                ),
                Err(_) => spec_index_pairs(self.spec_series()) is None,
            },
    {
        index_pairs(self.series().as_str())
    }
}

/// `post` is `pre` with its series id set to `id` and every other
/// field kept.
pub open spec fn same_point_with_id(pre: PointType, post: PointType, id: u64) -> bool {
    match (pre, post) {
        (PointType::I64(a), PointType::I64(b)) => b == (Point {
            series_id: Some(id),
            ..a
        }),
        (PointType::F64(a), PointType::F64(b)) => b == (Point {
            series_id: Some(id),
            ..a
        }),
        _ => false,
    }
}

/// Index of the first occurrence of `c` in `s`, or `s.len()` if `c`
/// does not occur.
pub open spec fn find_sep(s: Seq<char>, c: char) -> nat
    decreases s.len(),
{
    if s.len() == 0 {
        0
    } else if s[0] == c {
        0
    } else {
        (1 + find_sep(s.skip(1), c)) as nat
    }
}

pub proof fn lemma_find_sep(s: Seq<char>, c: char)
    ensures
        find_sep(s, c) <= s.len(),
        find_sep(s, c) < s.len() ==> s[find_sep(s, c) as int] == c,
        forall|j: int| 0 <= j < find_sep(s, c) ==> s[j] != c,
    decreases s.len(),
{
    if s.len() == 0 {
    } else if s[0] == c {
    } else {
        lemma_find_sep(s.skip(1), c);
        assert forall|j: int| 0 <= j < find_sep(s, c) implies s[j] != c by {
            if j > 0 {
                assert(s.skip(1)[j - 1] == s[j]);
            }
        };
        if find_sep(s, c) < s.len() {
            assert(s.skip(1)[find_sep(s, c) - 1] == s[find_sep(s, c) as int]);
        }
    }
}

/// The tag region of a series key, split on commas into `key=value`
/// pairs; `None` if some segment has no `=`.
pub open spec fn spec_tag_pairs(s: Seq<char>) -> Option<Seq<(Seq<char>, Seq<char>)>>
    decreases s.len(),
{
    let c = find_sep(s, ',');
    let seg = s.take(c as int);
    let e = find_sep(seg, '=');
    if e >= seg.len() {
        None
    } else {
        let pair = (seg.take(e as int), seg.skip(e as int + 1));
        if c >= s.len() {
            Some(seq![pair])
        } else {
            match spec_tag_pairs(s.skip(c as int + 1)) {
                None => None,
                Some(r) => Some(seq![pair] + r),
            }
        }
    }
}

/// The full decomposition of a series key: the measurement under `_m`,
/// one pair per tag, and the field under `_f`. `None` for a key with no
/// field separator or with a tag segment that has no `=`.
pub open spec fn spec_index_pairs(key: Seq<char>) -> Option<Seq<(Seq<char>, Seq<char>)>> {
    let t = find_sep(key, '\t');
    if t >= key.len() {
        None
    } else {
        let series = key.take(t as int);
        let field = key.skip(t as int + 1);
        let m = find_sep(series, ',');
        let measurement = series.take(m as int);
        let head = seq![("_m"@, measurement)];
        let tail = seq![("_f"@, field)];
        if m >= series.len() {
            Some(head + tail)
        } else {
            match spec_tag_pairs(series.skip(m as int + 1)) {
                None => None,
                Some(tp) => Some(head + tp + tail),
            }
        }
    }
}

/// Finds the first occurrence of `c` in `s`.
fn find_char(s: &str, c: char) -> (i: usize)
    ensures
        i == find_sep(s@, c),
        i <= s@.len(),
{
    let n = s.unicode_len();
    let mut i: usize = 0;
    proof {
        lemma_find_sep(s@, c);
    }
    while i < n
        invariant
            i <= n,
            n == s@.len(),
            find_sep(s@, c) <= s@.len(),
            find_sep(s@, c) < s@.len() ==> s@[find_sep(s@, c) as int] == c,
            forall|j: int| 0 <= j < find_sep(s@, c) ==> s@[j] != c,
            forall|j: int| 0 <= j < i ==> s@[j] != c,
        decreases n - i,
    {
        let ch = s.get_char(i);
        if ch == c {
            proof {
                if find_sep(s@, c) < i {
                    assert(s@[find_sep(s@, c) as int] == c);
                }
            }
            return i;
        }
        i = i + 1;
    }
    proof {
        if find_sep(s@, c) < s@.len() {
            assert(s@[find_sep(s@, c) as int] == c);
        }
    }
    i
}

/// Decomposes a canonical series key into its index pairs.
pub fn index_pairs(key: &str) -> (r: Result<Vec<Pair>, ParseError>)
    ensures
        match r {
            Ok(ps) => spec_index_pairs(key@) == Some(ps@.map_values(|p: Pair| p@)),
            Err(_) => spec_index_pairs(key@) is None,
        },
{
    let key_len = key.unicode_len();
    let tab = find_char(key, '\t');
    if tab >= key_len {
        return Err(
            ParseError {
                description: String::from_str("series key has no field separator"),
            },
        );
    }
    let series = key.substring_char(0, tab);
    let field = key.substring_char(tab + 1, key_len);
    let series_len = series.unicode_len();
    let m = find_char(series, ',');
    let measurement = series.substring_char(0, m);

    let mut pairs: Vec<Pair> = Vec::new();
    pairs.push(
        Pair { key: String::from_str("_m"), value: String::from_str(measurement) },
    );

    if m < series_len {
        let mut rest = series.substring_char(m + 1, series_len);
        loop
            invariant
                spec_index_pairs(key@) matches Some(all) ==> (match spec_tag_pairs(rest@) {
                    Some(tp) => all =~= pairs@.map_values(|p: Pair| p@) + tp + seq![
                        ("_f"@, field@),
                    ],
                    None => false,
                }),
                spec_tag_pairs(rest@) is Some ==> spec_index_pairs(key@) is Some,
            decreases rest@.len(),
        {
            let rest_len = rest.unicode_len();
            let c = find_char(rest, ',');
            let seg = rest.substring_char(0, c);
            let seg_len = seg.unicode_len();
            let e = find_char(seg, '=');
            if e >= seg_len {
                return Err(
                    ParseError {
                        description: String::from_str("tag pair has no '='"),
                    },
                );
            }
            let k = seg.substring_char(0, e);
            let v = seg.substring_char(e + 1, seg_len);
            pairs.push(Pair { key: String::from_str(k), value: String::from_str(v) });
            if c >= rest_len {
                pairs.push(Pair { key: String::from_str("_f"), value: String::from_str(field) });
                return Ok(pairs);
            }
            let next = rest.substring_char(c + 1, rest_len);
            rest = next;
        }
    } else {
        pairs.push(Pair { key: String::from_str("_f"), value: String::from_str(field) });
        Ok(pairs)
    }
}

} // verus!
