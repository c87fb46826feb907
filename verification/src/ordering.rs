//! Lexicographic order on strings, by Unicode code point, with the
//! comparison function the merge streams and the tag dictionary use.
//! For UTF-8 encoded strings this order agrees with the byte-wise order
//! that `str::cmp` uses.

use vstd::prelude::*;

verus! {

/// Three-way comparison result for series keys and tag strings.
#[derive(Debug, Clone, Copy, PartialEq, Eq, Structural)]
pub enum KeyOrder {
    Less,
    Equal,
    Greater,
}

/// Strict lexicographic order on character sequences, by code point.
pub open spec fn str_lt(a: Seq<char>, b: Seq<char>) -> bool
    decreases a.len(),
{
    if b.len() == 0 {
        false
    } else if a.len() == 0 {
        true
    } else if (a[0] as u32) < (b[0] as u32) {
        true
    } else if (a[0] as u32) > (b[0] as u32) {
        false
    } else {
        str_lt(a.skip(1), b.skip(1))
    }
}

/// Reflexive closure of `str_lt`.
pub open spec fn str_le(a: Seq<char>, b: Seq<char>) -> bool {
    str_lt(a, b) || a == b
}

/// Distinct characters have distinct code points.
proof fn lemma_char_cast_injective(c: char, d: char)
    requires
        c as u32 == d as u32,
    ensures
        c == d,
{
    vstd::utf8::char_u32_cast(c, c as u32);
    vstd::utf8::char_u32_cast(d, d as u32);
}

/// Exactly one of `a < b`, `a == b`, `b < a` holds.
pub proof fn lemma_str_trichotomy(a: Seq<char>, b: Seq<char>)
    ensures
        str_lt(a, b) || a == b || str_lt(b, a),
        str_lt(a, b) ==> a != b && !str_lt(b, a),
        a == b ==> !str_lt(a, b) && !str_lt(b, a),
    decreases a.len(),
{
    if a.len() == 0 && b.len() == 0 {
        assert(a =~= b);
    } else if a.len() > 0 && b.len() > 0 && a[0] == b[0] {
        lemma_str_trichotomy(a.skip(1), b.skip(1));
        if a.skip(1) == b.skip(1) {
            assert(a =~= seq![a[0]] + a.skip(1));
            assert(b =~= seq![b[0]] + b.skip(1));
        }
        if a == b {
            assert(a.skip(1) =~= b.skip(1));
        }
    } else {
        if a.len() > 0 && b.len() > 0 {
            assert((a[0] as u32) != (b[0] as u32)) by {
                if (a[0] as u32) == (b[0] as u32) {
                    lemma_char_cast_injective(a[0], b[0]);
                }
            };
        }
    }
}

/// `str_lt` is transitive.
pub proof fn lemma_str_lt_trans(a: Seq<char>, b: Seq<char>, c: Seq<char>)
    requires
        str_lt(a, b),
        str_lt(b, c),
    ensures
        str_lt(a, c),
    decreases a.len(),
{
    if a.len() > 0 {
        if (a[0] as u32) == (b[0] as u32) && (b[0] as u32) == (c[0] as u32) {
            lemma_str_lt_trans(a.skip(1), b.skip(1), c.skip(1));
        }
    }
}

/// Dropping an equal first character on both sides preserves the order
/// and equality relations.
pub proof fn lemma_str_lt_step(a: Seq<char>, b: Seq<char>)
    requires
        a.len() > 0,
        b.len() > 0,
        a[0] == b[0],
    ensures
        str_lt(a, b) <==> str_lt(a.skip(1), b.skip(1)),
        (a == b) <==> (a.skip(1) == b.skip(1)),
{
    if a.skip(1) == b.skip(1) {
        assert(a =~= seq![a[0]] + a.skip(1));
        assert(b =~= seq![b[0]] + b.skip(1));
    }
    if a == b {
        assert(a.skip(1) =~= b.skip(1));
    }
}

/// Compares two strings in the lexicographic order `str_lt`.
pub fn str_compare(a: &str, b: &str) -> (o: KeyOrder)
    ensures
        (o == KeyOrder::Less) <==> str_lt(a@, b@),
        (o == KeyOrder::Equal) <==> (a@ == b@),
        (o == KeyOrder::Greater) <==> str_lt(b@, a@),
{
    let a_len = a.unicode_len();
    let b_len = b.unicode_len();
    let mut i: usize = 0;
    proof {
        assert(a@.skip(0) =~= a@);
        assert(b@.skip(0) =~= b@);
    }
    loop
        invariant
            i <= a_len,
            i <= b_len,
            a_len == a@.len(),
            b_len == b@.len(),
            str_lt(a@, b@) <==> str_lt(a@.skip(i as int), b@.skip(i as int)),
            str_lt(b@, a@) <==> str_lt(b@.skip(i as int), a@.skip(i as int)),
            (a@ == b@) <==> (a@.skip(i as int) == b@.skip(i as int)),
        decreases a_len - i,
    {
        proof {
            lemma_str_trichotomy(a@, b@);
        }
        if i >= a_len && i >= b_len {
            assert(a@.skip(i as int) =~= b@.skip(i as int));
            return KeyOrder::Equal;
        }
        if i >= a_len {
            assert(str_lt(a@.skip(i as int), b@.skip(i as int)));
            assert(a@.skip(i as int).len() == 0 && b@.skip(i as int).len() > 0);
            return KeyOrder::Less;
        }
        if i >= b_len {
            assert(str_lt(b@.skip(i as int), a@.skip(i as int)));
            return KeyOrder::Greater;
        }
        let ca = a.get_char(i);
        let cb = b.get_char(i);
        assert(a@.skip(i as int)[0] == a@[i as int]);
        assert(b@.skip(i as int)[0] == b@[i as int]);
        if (ca as u32) < (cb as u32) {
            assert(str_lt(a@.skip(i as int), b@.skip(i as int)));
            assert(a@.skip(i as int) != b@.skip(i as int)) by {
                assert(a@.skip(i as int)[0] != b@.skip(i as int)[0]);
            };
            return KeyOrder::Less;
        }
        if (ca as u32) > (cb as u32) {
            assert(str_lt(b@.skip(i as int), a@.skip(i as int)));
            return KeyOrder::Greater;
        }
        proof {
            assert(ca == cb);
            lemma_str_lt_step(a@.skip(i as int), b@.skip(i as int));
            assert(a@.skip(i as int).skip(1) =~= a@.skip(i as int + 1));
            assert(b@.skip(i as int).skip(1) =~= b@.skip(i as int + 1));
        }
        i = i + 1;
    }
}

} // verus!
