//! Byte-level text utilities shared by the codec and the gateway:
//! decimal parsing, searching for separator runs, splitting and joining
//! path segments, and ASCII case mapping.

use vstd::prelude::*;

verus! {

/// True for the ASCII digits `0` to `9`.
pub open spec fn is_ascii_digit(b: u8) -> bool {
    48 <= b <= 57
}

/// True when `s` is a non-empty run of ASCII digits.
pub open spec fn is_digits(s: Seq<u8>) -> bool {
    s.len() > 0 && forall|i: int| 0 <= i < s.len() ==> is_ascii_digit(#[trigger] s[i])
}

/// The numeric value of a digit run, most significant digit first.
pub open spec fn dec_value(s: Seq<u8>) -> nat
    decreases s.len(),
{
    if s.len() == 0 {
        0
    } else {
        dec_value(s.drop_last()) * 10 + ((s.last() - 48) as nat)
    }
}

proof fn lemma_dec_value_monotonic(s: Seq<u8>, n: int)
    requires
        0 <= n <= s.len(),
    ensures
        dec_value(s.take(n)) <= dec_value(s),
    decreases s.len() - n,
{
    if n < s.len() {
        lemma_dec_value_monotonic(s, n + 1);
        assert(s.take(n + 1).drop_last() =~= s.take(n));
        assert(s.take(n + 1).last() == s[n]);
        assert(dec_value(s.take(n)) <= dec_value(s.take(n + 1)));
    } else {
        assert(s.take(n) =~= s);
    }
}

/// Parses a run of ASCII digits as a `usize`. Returns `None` when the
/// input is empty, holds a non-digit, or does not fit in `usize`.
pub fn parse_decimal(s: &Vec<u8>) -> (r: Option<usize>)
    ensures
        r is Some <==> is_digits(s@) && dec_value(s@) <= usize::MAX,
        r is Some ==> r->Some_0 == dec_value(s@),
{
    if s.len() == 0 {
        return None;
    }
    let mut acc: usize = 0;
    let mut i: usize = 0;
    while i < s.len()
        invariant
            0 <= i <= s@.len(),
            acc == dec_value(s@.take(i as int)),
            forall|j: int| 0 <= j < i ==> is_ascii_digit(#[trigger] s@[j]),
        decreases s@.len() - i,
    {
        let b = s[i];
        if b < 48 || b > 57 {
            return None;
        }
        let d: usize = (b - 48) as usize;
        if acc > (usize::MAX - d) / 10 {
            proof {
                assert(s@.take(i + 1).drop_last() =~= s@.take(i as int));
                assert(s@.take(i + 1).last() == s@[i as int]);
                assert(dec_value(s@.take(i + 1)) == acc * 10 + d);
                assert(dec_value(s@.take(i + 1)) > usize::MAX) by (nonlinear_arith)
                    requires
                        dec_value(s@.take(i + 1)) == acc * 10 + d,
                        acc > vstd::math::sub(usize::MAX as int, d as int) / 10,
                        0 <= d <= 9,
                        acc <= usize::MAX,
                ;
                lemma_dec_value_monotonic(s@, i + 1);
            }
            return None;
        }
        proof {
            assert(acc * 10 + d <= usize::MAX) by (nonlinear_arith)
                requires
                    acc <= vstd::math::sub(usize::MAX as int, d as int) / 10,
                    0 <= d <= 9,
                    0 <= acc,
            ;
            assert(s@.take(i + 1).drop_last() =~= s@.take(i as int));
        }
        acc = acc * 10 + d;
        i = i + 1;
    }
    proof {
        assert(s@.take(i as int) =~= s@);
    }
    Some(acc)
}

/// True when the three bytes of `s` starting at `i` all equal `b`.
pub open spec fn triple_at(s: Seq<u8>, b: u8, i: int) -> bool {
    &&& 0 <= i
    &&& i + 3 <= s.len()
    &&& s[i] == b
    &&& s[i + 1] == b
    &&& s[i + 2] == b
}

/// Index of the first run of three `b` bytes in `s`, if any.
pub open spec fn find_triple_spec(s: Seq<u8>, b: u8) -> Option<int>
    decreases s.len(),
{
    if s.len() < 3 {
        None
    } else if s[0] == b && s[1] == b && s[2] == b {
        Some(0)
    } else {
        match find_triple_spec(s.skip(1), b) {
            Some(i) => Some(i + 1),
            None => None,
        }
    }
}

pub proof fn lemma_find_triple_first(s: Seq<u8>, b: u8)
    ensures
        match find_triple_spec(s, b) {
            Some(i) => triple_at(s, b, i) && forall|j: int| 0 <= j < i ==> !triple_at(s, b, j),
            None => forall|j: int| !triple_at(s, b, j),
        },
    decreases s.len(),
{
    if s.len() < 3 {
    } else if s[0] == b && s[1] == b && s[2] == b {
    } else {
        lemma_find_triple_first(s.skip(1), b);
        match find_triple_spec(s.skip(1), b) {
            Some(i) => {
                assert(triple_at(s.skip(1), b, i));
                assert(triple_at(s, b, i + 1));
                assert forall|j: int| 0 <= j < i + 1 implies !triple_at(s, b, j) by {
                    if 1 <= j {
                        assert(!triple_at(s.skip(1), b, j - 1));
                        assert(s.skip(1)[j - 1] == s[j]);
                        assert(j - 1 + 3 <= s.skip(1).len() <==> j + 3 <= s.len());
                        if triple_at(s, b, j) {
                            assert(triple_at(s.skip(1), b, j - 1));
                        }
                    }
                }
            },
            None => {
                assert forall|j: int| !triple_at(s, b, j) by {
                    if 1 <= j {
                        assert(!triple_at(s.skip(1), b, j - 1));
                        if triple_at(s, b, j) {
                            assert(s.skip(1)[j - 1] == s[j]);
                            assert(triple_at(s.skip(1), b, j - 1));
                        }
                    }
                }
            },
        }
    }
}

/// Finds the first run of three `b` bytes in `s`.
pub fn find_triple(s: &Vec<u8>, b: u8) -> (r: Option<usize>)
    ensures
        match r {
            Some(i) => find_triple_spec(s@, b) == Some(i as int),
            None => find_triple_spec(s@, b) is None,
        },
{
    proof {
        lemma_find_triple_first(s@, b);
    }
    if s.len() < 3 {
        return None;
    }
    let mut i: usize = 0;
    while i <= s.len() - 3
        invariant
            3 <= s@.len(),
            0 <= i <= s@.len() - 2,
            forall|j: int| 0 <= j < i ==> !triple_at(s@, b, j),
        decreases s@.len() - i,
    {
        if s[i] == b && s[i + 1] == b && s[i + 2] == b {
            proof {
                lemma_find_triple_first(s@, b);
                assert(triple_at(s@, b, i as int));
                match find_triple_spec(s@, b) {
                    Some(k) => {
                        if k < i {
                            assert(!triple_at(s@, b, k));
                        }
                        if k > i {
                            assert(!triple_at(s@, b, i as int));
                        }
                    },
                    None => {
                        assert(!triple_at(s@, b, i as int));
                    },
                }
            }
            return Some(i);
        }
        i = i + 1;
    }
    proof {
        lemma_find_triple_first(s@, b);
        assert(forall|j: int| 0 <= j ==> !triple_at(s@, b, j));
    }
    None
}

/// Index of the first `b` byte in `s`, if any.
pub open spec fn find_byte_spec(s: Seq<u8>, b: u8) -> Option<int>
    decreases s.len(),
{
    if s.len() == 0 {
        None
    } else if s[0] == b {
        Some(0)
    } else {
        match find_byte_spec(s.skip(1), b) {
            Some(i) => Some(i + 1),
            None => None,
        }
    }
}

pub proof fn lemma_find_byte_first(s: Seq<u8>, b: u8)
    ensures
        match find_byte_spec(s, b) {
            Some(i) => 0 <= i < s.len() && s[i] == b && forall|j: int| 0 <= j < i ==> s[j] != b,
            None => forall|j: int| 0 <= j < s.len() ==> s[j] != b,
        },
    decreases s.len(),
{
    if s.len() == 0 {
    } else if s[0] == b {
    } else {
        lemma_find_byte_first(s.skip(1), b);
        assert(forall|j: int| 0 <= j < s.skip(1).len() ==> s.skip(1)[j] == s[j + 1]);
        match find_byte_spec(s.skip(1), b) {
            Some(i) => {
                assert(s.skip(1)[i] == b);
                assert forall|j: int| 0 <= j < i + 1 implies s[j] != b by {
                    if 1 <= j {
                        assert(s.skip(1)[j - 1] != b);
                    }
                }
            },
            None => {
                assert forall|j: int| 0 <= j < s.len() implies s[j] != b by {
                    if 1 <= j {
                        assert(s.skip(1)[j - 1] != b);
                    }
                }
            },
        }
    }
}

/// The copy of `v` between `from` (inclusive) and `to` (exclusive).
pub fn sub_bytes(v: &Vec<u8>, from: usize, to: usize) -> (r: Vec<u8>)
    requires
        from <= to <= v@.len(),
    ensures
        r@ == v@.subrange(from as int, to as int),
{
    let s = vstd::slice::slice_subrange(v.as_slice(), from, to);
    vstd::slice::slice_to_vec(s)
}

/// `s` split at every `sep` byte; a split at each occurrence, so `n`
/// separators yield `n + 1` parts, some possibly empty.
pub open spec fn split_bytes_spec(s: Seq<u8>, sep: u8) -> Seq<Seq<u8>>
    decreases s.len(),
    via split_bytes_spec_decreases
{
    match find_byte_spec(s, sep) {
        None => seq![s],
        Some(i) => seq![s.take(i)] + split_bytes_spec(s.skip(i + 1), sep),
    }
}

#[via_fn]
proof fn split_bytes_spec_decreases(s: Seq<u8>, sep: u8) {
    lemma_find_byte_first(s, sep);
}

/// The parts of `parts` that are non-empty, in order.
pub open spec fn nonempty_parts(parts: Seq<Seq<u8>>) -> Seq<Seq<u8>>
    decreases parts.len(),
{
    if parts.len() == 0 {
        Seq::empty()
    } else if parts.last().len() > 0 {
        nonempty_parts(parts.drop_last()).push(parts.last())
    } else {
        nonempty_parts(parts.drop_last())
    }
}

/// `parts` joined with a single `sep` byte between consecutive parts.
pub open spec fn join_bytes_spec(parts: Seq<Seq<u8>>, sep: u8) -> Seq<u8>
    decreases parts.len(),
{
    if parts.len() == 0 {
        Seq::empty()
    } else if parts.len() == 1 {
        parts[0]
    } else {
        join_bytes_spec(parts.drop_last(), sep) + seq![sep] + parts.last()
    }
}

proof fn lemma_split_no_sep(s: Seq<u8>, sep: u8)
    requires
        forall|j: int| 0 <= j < s.len() ==> s[j] != sep,
    ensures
        split_bytes_spec(s, sep) == seq![s],
{
    lemma_find_byte_first(s, sep);
    if find_byte_spec(s, sep) is Some {
        let i = find_byte_spec(s, sep)->Some_0;
        assert(s[i] == sep);
        assert(false);
    }
}

/// Splitting at the first separator peels off the leading part.
proof fn lemma_split_step(head: Seq<u8>, rest: Seq<u8>, sep: u8)
    requires
        forall|j: int| 0 <= j < head.len() ==> head[j] != sep,
    ensures
        split_bytes_spec(head + seq![sep] + rest, sep) == seq![head] + split_bytes_spec(rest, sep),
{
    let s = head + seq![sep] + rest;
    lemma_find_byte_first(s, sep);
    assert(s[head.len() as int] == sep);
    match find_byte_spec(s, sep) {
        None => {
            assert(false);
        },
        Some(i) => {
            assert(i <= head.len());
            if i < head.len() {
                assert(s[i] == head[i]);
                assert(false);
            }
            assert(s.take(i) =~= head);
            assert(s.skip(i + 1) =~= rest);
        },
    }
}

/// Splits `s` at every `sep` byte.
pub fn split_bytes(s: &Vec<u8>, sep: u8) -> (r: Vec<Vec<u8>>)
    ensures
        r.deep_view() == split_bytes_spec(s@, sep),
{
    let mut r: Vec<Vec<u8>> = Vec::new();
    let mut cur: Vec<u8> = Vec::new();
    let mut i: usize = 0;
    proof {
        assert(cur@ + s@.skip(0) =~= s@);
        assert(r.deep_view() =~= Seq::<Seq<u8>>::empty());
        assert(r.deep_view() + split_bytes_spec(s@, sep) =~= split_bytes_spec(s@, sep));
    }
    while i < s.len()
        invariant
            0 <= i <= s@.len(),
            forall|j: int| 0 <= j < cur@.len() ==> cur@[j] != sep,
            split_bytes_spec(s@, sep) == r.deep_view() + split_bytes_spec(
                cur@ + s@.skip(i as int),
                sep,
            ),
        decreases s@.len() - i,
    {
        let b = s[i];
        if b == sep {
            proof {
                assert(cur@ + s@.skip(i as int) =~= cur@ + seq![sep] + s@.skip(i + 1));
                lemma_split_step(cur@, s@.skip(i + 1), sep);
            }
            let ghost d0 = r.deep_view();
            let ghost c0 = cur@;
            r.push(cur);
            cur = Vec::new();
            proof {
                assert(r.deep_view() =~~= d0.push(c0));
                assert(cur@ + s@.skip(i + 1) =~= s@.skip(i + 1));
                assert(d0 + (seq![c0] + split_bytes_spec(s@.skip(i + 1), sep)) =~= d0.push(c0)
                    + split_bytes_spec(s@.skip(i + 1), sep));
            }
        } else {
            proof {
                assert((cur@ + seq![b]) + s@.skip(i + 1) =~= cur@ + s@.skip(i as int));
                assert(cur@.push(b) =~= cur@ + seq![b]);
            }
            cur.push(b);
        }
        i = i + 1;
    }
    let ghost d0 = r.deep_view();
    let ghost c0 = cur@;
    proof {
        assert(cur@ + s@.skip(i as int) =~= cur@);
        lemma_split_no_sep(cur@, sep);
        assert(d0 + seq![c0] =~= d0.push(c0));
    }
    r.push(cur);
    proof {
        assert(r.deep_view() =~~= d0.push(c0));
    }
    r
}

/// Keeps the non-empty parts, in order.
pub fn drop_empty_parts(parts: Vec<Vec<u8>>) -> (r: Vec<Vec<u8>>)
    ensures
        r.deep_view() == nonempty_parts(parts.deep_view()),
{
    let mut r: Vec<Vec<u8>> = Vec::new();
    let mut i: usize = 0;
    while i < parts.len()
        invariant
            0 <= i <= parts@.len(),
            r.deep_view() == nonempty_parts(parts.deep_view().take(i as int)),
        decreases parts@.len() - i,
    {
        proof {
            assert(parts.deep_view().take(i + 1).drop_last() =~= parts.deep_view().take(i as int));
            assert(parts.deep_view().take(i + 1).last() == parts.deep_view()[i as int]);
        }
        if parts[i].len() > 0 {
            let mut part: Vec<u8> = Vec::new();
            part.extend_from_slice(parts[i].as_slice());
            proof {
                assert(part@ =~= parts.deep_view()[i as int]);
            }
            let ghost d0 = r.deep_view();
            r.push(part);
            proof {
                assert(r.deep_view() =~~= d0.push(parts.deep_view()[i as int]));
            }
        }
        i = i + 1;
    }
    proof {
        assert(parts.deep_view().take(i as int) =~= parts.deep_view());
    }
    r
}

/// Joins `parts` with `sep` between consecutive parts.
pub fn join_bytes(parts: &Vec<Vec<u8>>, sep: u8) -> (r: Vec<u8>)
    ensures
        r@ == join_bytes_spec(parts.deep_view(), sep),
{
    let mut r: Vec<u8> = Vec::new();
    if parts.len() == 0 {
        return r;
    }
    r.extend_from_slice(parts[0].as_slice());
    proof {
        assert(r@ =~= parts.deep_view()[0]);
        assert(parts.deep_view().take(1) =~= seq![parts.deep_view()[0]]);
    }
    let mut i: usize = 1;
    while i < parts.len()
        invariant
            1 <= i <= parts@.len(),
            parts@.len() == parts.deep_view().len(),
            r@ == join_bytes_spec(parts.deep_view().take(i as int), sep),
        decreases parts@.len() - i,
    {
        let ghost prev = r@;
        r.push(sep);
        r.extend_from_slice(parts[i].as_slice());
        proof {
            assert(parts.deep_view().take(i + 1).drop_last() =~= parts.deep_view().take(i as int));
            assert(parts.deep_view().take(i + 1).last() == parts.deep_view()[i as int]);
            assert(r@ =~= prev + seq![sep] + parts.deep_view()[i as int]);
        }
        i = i + 1;
    }
    proof {
        assert(parts.deep_view().take(i as int) =~= parts.deep_view());
    }
    r
}

/// ASCII lower-case letters map to upper case; everything else is kept.
pub open spec fn to_upper(b: u8) -> u8 {
    if 97 <= b <= 122 {
        (b - 32) as u8
    } else {
        b
    }
}

/// ASCII upper-case letters map to lower case; everything else is kept.
pub open spec fn to_lower(b: u8) -> u8 {
    if 65 <= b <= 90 {
        (b + 32) as u8
    } else {
        b
    }
}

} // verus!
