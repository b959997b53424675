//! The wire encoding: byte strings `<len>:<bytes>`, unsigned integers
//! `i<digits>e`, lists `l<items>e` and dictionaries `d<key-value pairs>e`.
//!
//! The ghost type [`BVal`] models a wire value; `spec_enc` says which bytes a
//! value encodes to, and `spec_parse` says which value (if any) a byte buffer
//! holds at a position. Executable parsing primitives are proved against
//! `spec_parse`, and `lemma_parse_enc` proves that parsing inverts encoding.
use vstd::prelude::*;
use crate::errors::Error;

verus! {

/// A wire value: the ghost model of one node of the wire encoding.
pub enum BVal {
    Int(u64),
    Bytes(Seq<u8>),
    List(Seq<BVal>),
    Dict(Seq<(Seq<u8>, BVal)>),
}

/// The decimal digits of `n`, most significant first, no sign, no padding.
pub open spec fn spec_digits(n: nat) -> Seq<u8>
    decreases n,
{
    if n < 10 {
        seq![(48 + n) as u8]
    } else {
        spec_digits(n / 10).push((48 + n % 10) as u8)
    }
}

/// The encoding of one byte string: decimal length, `:`, the bytes.
pub open spec fn spec_enc_bytes(b: Seq<u8>) -> Seq<u8> {
    spec_digits(b.len()) + seq![58u8] + b
}

/// The bytes a wire value encodes to. Dictionary pairs are emitted in the
/// order they stand in the sequence; encoders of this crate always build
/// that sequence with keys in byte-sorted order.
pub open spec fn spec_enc(v: BVal) -> Seq<u8>
    decreases v, 0int,
{
    match v {
        BVal::Int(n) => seq![105u8] + spec_digits(n as nat) + seq![101u8],
        BVal::Bytes(b) => spec_enc_bytes(b),
        BVal::List(items) => seq![108u8] + spec_enc_items(items) + seq![101u8],
        BVal::Dict(pairs) => seq![100u8] + spec_enc_pairs(pairs) + seq![101u8],
    }
}

pub open spec fn spec_enc_items(items: Seq<BVal>) -> Seq<u8>
    decreases items, 1int,
{
    if items.len() == 0 {
        Seq::empty()
    } else {
        spec_enc(items[0]) + spec_enc_items(items.drop_first())
    }
}

pub open spec fn spec_enc_pairs(pairs: Seq<(Seq<u8>, BVal)>) -> Seq<u8>
    decreases pairs, 1int,
{
    if pairs.len() == 0 {
        Seq::empty()
    } else {
        spec_enc_bytes(pairs[0].0) + spec_enc(pairs[0].1) + spec_enc_pairs(pairs.drop_first())
    }
}

pub open spec fn is_digit(c: u8) -> bool {
    48 <= c <= 57
}

/// The first position at or after `i` that does not hold a decimal digit.
pub open spec fn digits_end(s: Seq<u8>, i: int) -> int
    decreases s.len() - i,
{
    if 0 <= i < s.len() && is_digit(s[i]) {
        digits_end(s, i + 1)
    } else {
        i
    }
}

/// The value of the decimal digits `s[i..j]`, read most significant first.
pub open spec fn digits_val(s: Seq<u8>, i: int, j: int) -> nat
    decreases j - i,
{
    if i >= j {
        0
    } else {
        digits_val(s, i, j - 1) * 10 + (s[j - 1] - 48) as nat
    }
}

/// The wire value starting at position `i` of `s` and the position just past
/// it, or `None` where no value can be read there. Integers above `u64::MAX`
/// are rejected; dictionary pairs are kept in the order read, whatever it is.
pub open spec fn spec_parse(s: Seq<u8>, i: int) -> Option<(BVal, int)>
    decreases s.len() - i, 0int,
{
    if i < 0 || i >= s.len() {
        None
    } else if s[i] == 105 {  // 'i'
        let j = digits_end(s, i + 1);
        if j > i + 1 && j < s.len() && s[j] == 101 && digits_val(s, i + 1, j) <= u64::MAX {
            Some((BVal::Int(digits_val(s, i + 1, j) as u64), j + 1))
        } else {
            None
        }
    } else if is_digit(s[i]) {
        let j = digits_end(s, i);
        let n = digits_val(s, i, j) as int;
        if j < s.len() && s[j] == 58 && j + 1 + n <= s.len() {
            Some((BVal::Bytes(s.subrange(j + 1, j + 1 + n)), j + 1 + n))
        } else {
            None
        }
    } else if s[i] == 108 {  // 'l'
        match spec_parse_items(s, i + 1) {
            Some((items, j)) => Some((BVal::List(items), j)),
            None => None,
        }
    } else if s[i] == 100 {  // 'd'
        match spec_parse_pairs(s, i + 1) {
            Some((pairs, j)) => Some((BVal::Dict(pairs), j)),
            None => None,
        }
    } else {
        None
    }
}

/// List items from position `i` up to a closing `e`, and the position just
/// past that `e`.
pub open spec fn spec_parse_items(s: Seq<u8>, i: int) -> Option<(Seq<BVal>, int)>
    decreases s.len() - i, 1int,
{
    if i < 0 || i >= s.len() {
        None
    } else if s[i] == 101 {  // 'e'
        Some((Seq::empty(), i + 1))
    } else {
        match spec_parse(s, i) {
            Some((v, j)) => if i < j <= s.len() {
                match spec_parse_items(s, j) {
                    Some((items, k)) => Some((seq![v] + items, k)),
                    None => None,
                }
            } else {
                None
            },
            None => None,
        }
    }
}

/// Dictionary pairs from position `i` up to a closing `e`. Every key must be
/// a byte string; pairs are returned in the order read.
pub open spec fn spec_parse_pairs(s: Seq<u8>, i: int) -> Option<(Seq<(Seq<u8>, BVal)>, int)>
    decreases s.len() - i, 1int,
{
    if i < 0 || i >= s.len() {
        None
    } else if s[i] == 101 {  // 'e'
        Some((Seq::empty(), i + 1))
    } else {
        match spec_parse(s, i) {
            Some((BVal::Bytes(k), j)) => if i < j <= s.len() {
                match spec_parse(s, j) {
                    Some((v, j2)) => if j < j2 <= s.len() {
                        match spec_parse_pairs(s, j2) {
                            Some((pairs, k2)) => Some((seq![(k, v)] + pairs, k2)),
                            None => None,
                        }
                    } else {
                        None
                    },
                    None => None,
                }
            } else {
                None
            },
            _ => None,
        }
    }
}

/// Every byte of `spec_digits(n)` is a decimal digit, and there is at least one.
pub proof fn lemma_digits_shape(n: nat)
    ensures
        spec_digits(n).len() >= 1,
        forall|k: int| 0 <= k < spec_digits(n).len() ==> is_digit(#[trigger] spec_digits(n)[k]),
    decreases n,
{
    if n >= 10 {
        lemma_digits_shape(n / 10);
        assert forall|k: int| 0 <= k < spec_digits(n).len() implies is_digit(
            #[trigger] spec_digits(n)[k],
        ) by {
            if k < spec_digits(n / 10).len() {
                assert(spec_digits(n)[k] == spec_digits(n / 10)[k]);
            }
        }
    }
}

/// A run of digits from `i` to `j`, with `j` past the run, pins `digits_end`.
pub proof fn lemma_digits_end(s: Seq<u8>, i: int, j: int)
    requires
        0 <= i <= j <= s.len(),
        forall|k: int| i <= k < j ==> is_digit(#[trigger] s[k]),
        j == s.len() || !is_digit(s[j]),
    ensures
        digits_end(s, i) == j,
    decreases j - i,
{
    if i < j {
        lemma_digits_end(s, i + 1, j);
    }
}

/// Reading back the digits of `n` yields `n`.
pub proof fn lemma_digits_val(s: Seq<u8>, i: int, n: nat)
    requires
        0 <= i,
        i + spec_digits(n).len() <= s.len(),
        s.subrange(i, i + spec_digits(n).len()) == spec_digits(n),
    ensures
        digits_val(s, i, i + spec_digits(n).len()) == n,
    decreases n,
{
    let d = spec_digits(n);
    if n < 10 {
        assert(s[i] == s.subrange(i, i + 1)[0]);
        assert(digits_val(s, i, i + 1) == digits_val(s, i, i) * 10 + (s[i] - 48) as nat);
    } else {
        let d0 = spec_digits(n / 10);
        let l0 = d0.len() as int;
        assert(s.subrange(i, i + l0) =~= d0) by {
            assert forall|k: int| 0 <= k < l0 implies s.subrange(i, i + l0)[k] == d0[k] by {
                assert(s.subrange(i, i + d.len())[k] == d[k]);
                assert(d[k] == d0[k]);
            }
        }
        lemma_digits_val(s, i, n / 10);
        assert(s[i + d.len() - 1] == s.subrange(i, i + d.len())[d.len() - 1]);
        assert(s[i + d.len() - 1] == (48 + n % 10) as u8);
        assert(digits_val(s, i, i + d.len()) == digits_val(s, i, i + l0) * 10 + (s[i + d.len()
            - 1] - 48) as nat);
        assert(n / 10 * 10 + n % 10 == n) by {
            vstd::arithmetic::div_mod::lemma_fundamental_div_mod(n as int, 10);
        }
    }
}

/// Appending digits never shrinks the value they denote.
pub proof fn lemma_digits_val_extend(s: Seq<u8>, i: int, j: int, k: int)
    requires
        0 <= i <= j <= k <= s.len(),
        forall|m: int| i <= m < k ==> is_digit(#[trigger] s[m]),
    ensures
        digits_val(s, i, k) >= digits_val(s, i, j),
    decreases k - j,
{
    if j < k {
        lemma_digits_val_extend(s, i, j, k - 1);
        assert(digits_val(s, i, k) == digits_val(s, i, k - 1) * 10 + (s[k - 1] - 48) as nat);
        assert(digits_val(s, i, k - 1) * 10 >= digits_val(s, i, k - 1)) by (nonlinear_arith)
            requires digits_val(s, i, k - 1) >= 0;
    }
}

/// `digits_end` never moves backwards and never leaves the buffer.
pub proof fn lemma_digits_end_bounds(s: Seq<u8>, i: int)
    ensures
        digits_end(s, i) >= i,
        i <= s.len() ==> digits_end(s, i) <= s.len(),
    decreases s.len() - i,
{
    if 0 <= i < s.len() && is_digit(s[i]) {
        lemma_digits_end_bounds(s, i + 1);
    }
}

/// A successful parse lands strictly past where it started, within the buffer.
pub proof fn lemma_parse_bounds(s: Seq<u8>, i: int)
    ensures
        spec_parse(s, i) matches Some((v, j)) ==> i < j <= s.len(),
    decreases s.len() - i, 0int,
{
    if 0 <= i < s.len() {
        lemma_digits_end_bounds(s, i);
        lemma_digits_end_bounds(s, i + 1);
        if s[i] == 108 || s[i] == 100 {
            lemma_parse_items_bounds(s, i + 1);
            lemma_parse_pairs_bounds(s, i + 1);
        }
    }
}

pub proof fn lemma_parse_items_bounds(s: Seq<u8>, i: int)
    ensures
        spec_parse_items(s, i) matches Some((x, j)) ==> i < j <= s.len(),
    decreases s.len() - i, 1int,
{
    if 0 <= i < s.len() && s[i] != 101 {
        lemma_parse_bounds(s, i);
        match spec_parse(s, i) {
            Some((v, j)) => {
                if i < j <= s.len() {
                    lemma_parse_items_bounds(s, j);
                }
            },
            None => {},
        }
    }
}

pub proof fn lemma_parse_pairs_bounds(s: Seq<u8>, i: int)
    ensures
        spec_parse_pairs(s, i) matches Some((x, j)) ==> i < j <= s.len(),
    decreases s.len() - i, 1int,
{
    if 0 <= i < s.len() && s[i] != 101 {
        lemma_parse_bounds(s, i);
        match spec_parse(s, i) {
            Some((kv, j)) => {
                if i < j <= s.len() {
                    lemma_parse_bounds(s, j);
                    match spec_parse(s, j) {
                        Some((v, j2)) => {
                            if j < j2 <= s.len() {
                                lemma_parse_pairs_bounds(s, j2);
                            }
                        },
                        None => {},
                    }
                }
            },
            None => {},
        }
    }
}

/// A slice known to be a concatenation splits into slices of the two halves.
proof fn lemma_slice_split(s: Seq<u8>, i: int, a: Seq<u8>, b: Seq<u8>)
    requires
        0 <= i,
        i + a.len() + b.len() <= s.len(),
        s.subrange(i, i + a.len() + b.len()) == a + b,
    ensures
        s.subrange(i, i + a.len()) == a,
        s.subrange(i + a.len(), i + a.len() + b.len()) == b,
{
    let al = a.len() as int;
    let w = al + b.len() as int;
    assert forall|k: int| 0 <= k < al implies s.subrange(i, i + al)[k] == a[k] by {
        assert(s.subrange(i, i + w)[k] == (a + b)[k]);
        assert(s.subrange(i, i + al)[k] == s[i + k]);
        assert(s.subrange(i, i + w)[k] == s[i + k]);
    }
    assert(s.subrange(i, i + al) =~= a);
    assert forall|m: int| 0 <= m < b.len() implies s.subrange(i + al, i + w)[m] == b[m] by {
        assert(s.subrange(i, i + w)[al + m] == (a + b)[al + m]);
        assert(s.subrange(i + al, i + w)[m] == s[i + al + m]);
        assert(s.subrange(i, i + w)[al + m] == s[i + (al + m)]);
    }
    assert(s.subrange(i + al, i + w) =~= b);
}

/// An encoding is never empty and never starts with `e` or `:`.
pub proof fn lemma_enc_first_byte(v: BVal)
    ensures
        spec_enc(v).len() >= 1,
        spec_enc(v)[0] != 101,
        spec_enc(v)[0] == 105 || is_digit(spec_enc(v)[0]) || spec_enc(v)[0] == 108 || spec_enc(
            v,
        )[0] == 100,
{
    match v {
        BVal::Int(n) => {
            assert(spec_enc(v)[0] == 105);
        },
        BVal::Bytes(b) => {
            lemma_digits_shape(b.len());
            assert(spec_enc(v)[0] == spec_digits(b.len())[0]);
        },
        BVal::List(items) => {
            assert(spec_enc(v)[0] == 108);
        },
        BVal::Dict(pairs) => {
            assert(spec_enc(v)[0] == 100);
        },
    }
}

/// Parsing reads back exactly the byte string whose encoding sits at `i`.
pub proof fn lemma_parse_enc_bytes(b: Seq<u8>, s: Seq<u8>, i: int)
    requires
        0 <= i,
        i + spec_enc_bytes(b).len() <= s.len(),
        s.subrange(i, i + spec_enc_bytes(b).len()) == spec_enc_bytes(b),
    ensures
        spec_parse(s, i) == Some((BVal::Bytes(b), i + spec_enc_bytes(b).len() as int)),
{
    let d = spec_digits(b.len());
    let dl = d.len() as int;
    let el = spec_enc_bytes(b).len() as int;
    lemma_digits_shape(b.len());
    assert(spec_enc_bytes(b) =~= d + (seq![58u8] + b));
    lemma_slice_split(s, i, d, seq![58u8] + b);
    lemma_slice_split(s, i + dl, seq![58u8], b);
    lemma_digits_val(s, i, b.len());
    assert(s[i + dl] == s.subrange(i + dl, i + dl + 1)[0]);
    assert forall|k: int| i <= k < i + dl implies is_digit(#[trigger] s[k]) by {
        assert(s[k] == s.subrange(i, i + dl)[k - i]);
    }
    lemma_digits_end(s, i, i + dl);
    assert(s[i] == s.subrange(i, i + dl)[0]);
    assert(is_digit(s[i]));
    assert(s.subrange(i + dl + 1, i + dl + 1 + b.len()) == b);
    assert(spec_parse(s, i) == Some((BVal::Bytes(b), i + el)));
}

/// Parsing reads back exactly the integer whose encoding sits at `i`.
pub proof fn lemma_parse_enc_int(n: u64, s: Seq<u8>, i: int)
    requires
        0 <= i,
        i + spec_enc(BVal::Int(n)).len() <= s.len(),
        s.subrange(i, i + spec_enc(BVal::Int(n)).len()) == spec_enc(BVal::Int(n)),
    ensures
        spec_parse(s, i) == Some((BVal::Int(n), i + spec_enc(BVal::Int(n)).len() as int)),
{
    let d = spec_digits(n as nat);
    let dl = d.len() as int;
    let e = spec_enc(BVal::Int(n));
    let el = e.len() as int;
    lemma_digits_shape(n as nat);
    assert(e =~= seq![105u8] + (d + seq![101u8]));
    lemma_slice_split(s, i, seq![105u8], d + seq![101u8]);
    lemma_slice_split(s, i + 1, d, seq![101u8]);
    assert(s[i] == s.subrange(i, i + 1)[0]);
    lemma_digits_val(s, i + 1, n as nat);
    assert forall|k: int| i + 1 <= k < i + 1 + dl implies is_digit(#[trigger] s[k]) by {
        assert(s[k] == s.subrange(i + 1, i + 1 + dl)[k - i - 1]);
    }
    assert(s[i + 1 + dl] == s.subrange(i + 1 + dl, i + 1 + dl + 1)[0]);
    lemma_digits_end(s, i + 1, i + 1 + dl);
    assert(spec_parse(s, i) == Some((BVal::Int(n), i + el)));
}

/// Round trip: parsing the encoding of any wire value, wherever it sits in a
/// larger buffer, yields that value back and stops just past its bytes.
pub proof fn lemma_parse_enc(v: BVal, s: Seq<u8>, i: int)
    requires
        0 <= i,
        i + spec_enc(v).len() <= s.len(),
        s.subrange(i, i + spec_enc(v).len()) == spec_enc(v),
    ensures
        spec_parse(s, i) == Some((v, i + spec_enc(v).len() as int)),
    decreases v, 0int,
{
    match v {
        BVal::Int(n) => {
            lemma_parse_enc_int(n, s, i);
        },
        BVal::Bytes(b) => {
            lemma_parse_enc_bytes(b, s, i);
        },
        BVal::List(items) => {
            let m = spec_enc_items(items);
            assert(spec_enc(v) =~= seq![108u8] + (m + seq![101u8]));
            lemma_slice_split(s, i, seq![108u8], m + seq![101u8]);
            lemma_slice_split(s, i + 1, m, seq![101u8]);
            assert(s[i] == s.subrange(i, i + 1)[0]);
            assert(s[i + 1 + m.len()] == s.subrange(
                i + 1 + m.len(),
                i + 1 + m.len() + 1,
            )[0]);
            lemma_parse_enc_items(items, s, i + 1);
        },
        BVal::Dict(pairs) => {
            let m = spec_enc_pairs(pairs);
            assert(spec_enc(v) =~= seq![100u8] + (m + seq![101u8]));
            lemma_slice_split(s, i, seq![100u8], m + seq![101u8]);
            lemma_slice_split(s, i + 1, m, seq![101u8]);
            assert(s[i] == s.subrange(i, i + 1)[0]);
            assert(s[i + 1 + m.len()] == s.subrange(
                i + 1 + m.len(),
                i + 1 + m.len() + 1,
            )[0]);
            lemma_parse_enc_pairs(pairs, s, i + 1);
        },
    }
}

pub proof fn lemma_parse_enc_items(items: Seq<BVal>, s: Seq<u8>, i: int)
    requires
        0 <= i,
        i + spec_enc_items(items).len() < s.len(),
        s.subrange(i, i + spec_enc_items(items).len()) == spec_enc_items(items),
        s[i + spec_enc_items(items).len()] == 101,
    ensures
        spec_parse_items(s, i) == Some((items, i + spec_enc_items(items).len() + 1)),
    decreases items, 1int,
{
    if items.len() == 0 {
        assert(spec_parse_items(s, i) == Some((Seq::<BVal>::empty(), i + 1)));
        assert(items =~= Seq::<BVal>::empty());
    } else {
        let v0 = items[0];
        let e0 = spec_enc(v0);
        let rest = spec_enc_items(items.drop_first());
        lemma_slice_split(s, i, e0, rest);
        lemma_enc_first_byte(v0);
        assert(s[i] == s.subrange(i, i + e0.len())[0]);
        assert(s[i] != 101);
        lemma_parse_enc(v0, s, i);
        lemma_parse_enc_items(items.drop_first(), s, i + e0.len());
        assert(seq![v0] + items.drop_first() =~= items);
    }
}

pub proof fn lemma_parse_enc_pairs(pairs: Seq<(Seq<u8>, BVal)>, s: Seq<u8>, i: int)
    requires
        0 <= i,
        i + spec_enc_pairs(pairs).len() < s.len(),
        s.subrange(i, i + spec_enc_pairs(pairs).len()) == spec_enc_pairs(pairs),
        s[i + spec_enc_pairs(pairs).len()] == 101,
    ensures
        spec_parse_pairs(s, i) == Some((pairs, i + spec_enc_pairs(pairs).len() + 1)),
    decreases pairs, 1int,
{
    if pairs.len() == 0 {
        assert(spec_parse_pairs(s, i) == Some((Seq::<(Seq<u8>, BVal)>::empty(), i + 1)));
        assert(pairs =~= Seq::<(Seq<u8>, BVal)>::empty());
    } else {
        let k0 = pairs[0].0;
        let v0 = pairs[0].1;
        let ek = spec_enc_bytes(k0);
        let ev = spec_enc(v0);
        let rest = spec_enc_pairs(pairs.drop_first());
        assert(spec_enc_pairs(pairs) =~= ek + (ev + rest));
        lemma_slice_split(s, i, ek, ev + rest);
        lemma_slice_split(s, i + ek.len(), ev, rest);
        lemma_digits_shape(k0.len());
        assert(s[i] == s.subrange(i, i + ek.len())[0]);
        assert(s[i] == spec_digits(k0.len())[0]);
        assert(s[i] != 101);
        lemma_parse_enc_bytes(k0, s, i);
        lemma_parse_enc(v0, s, i + ek.len());
        lemma_parse_enc_pairs(pairs.drop_first(), s, i + ek.len() + ev.len());
        assert(seq![(k0, v0)] + pairs.drop_first() =~= pairs);
    }
}

/// Every byte strictly before `digits_end(s, i)` is a digit.
pub proof fn lemma_digits_end_run(s: Seq<u8>, i: int)
    ensures
        forall|k: int| i <= k < digits_end(s, i) ==> is_digit(#[trigger] s[k]),
    decreases s.len() - i,
{
    if 0 <= i < s.len() && is_digit(s[i]) {
        lemma_digits_end_run(s, i + 1);
    }
}

/// Appends the decimal digits of `n` to `out`.
pub fn push_digits(out: &mut Vec<u8>, n: u64)
    ensures
        final(out)@ == old(out)@ + spec_digits(n as nat),
    decreases n,
{
    if n >= 10 {
        push_digits(out, n / 10);
    }
    out.push(48 + (n % 10) as u8);
    proof {
        if n >= 10 {
            assert(out@ =~= old(out)@ + spec_digits(n as nat));
        } else {
            assert(out@ =~= old(out)@ + spec_digits(n as nat));
        }
    }
}

/// Appends the wire encoding of the integer `n` to `out`.
pub fn push_int(out: &mut Vec<u8>, n: u64)
    ensures
        final(out)@ == old(out)@ + spec_enc(BVal::Int(n)),
{
    out.push(105);
    push_digits(out, n);
    out.push(101);
    proof {
        assert(out@ =~= old(out)@ + spec_enc(BVal::Int(n)));
    }
}

/// Appends the wire encoding of the byte string `b` to `out`.
pub fn push_bytes(out: &mut Vec<u8>, b: &[u8])
    ensures
        final(out)@ == old(out)@ + spec_enc_bytes(b@),
{
    push_digits(out, b.len() as u64);
    out.push(58);
    out.extend_from_slice(b);
    proof {
        assert(out@ =~= old(out)@ + spec_enc_bytes(b@));
    }
}

/// Reads a run of decimal digits starting at `i` and its value, or `None`
/// where that value does not fit in a `u64`.
fn parse_digits_at(s: &[u8], i: usize) -> (r: Option<(u64, usize)>)
    requires
        i <= s@.len(),
    ensures
        match r {
            Some((n, j)) => i <= j <= s@.len() && j as int == digits_end(s@, i as int)
                && digits_val(s@, i as int, j as int) == n,
            None => digits_val(s@, i as int, digits_end(s@, i as int)) > u64::MAX,
        },
{
    let mut j: usize = i;
    let mut acc: u64 = 0;
    loop
        invariant
            i <= j <= s@.len(),
            digits_end(s@, i as int) == digits_end(s@, j as int),
            acc as nat == digits_val(s@, i as int, j as int),
            forall|k: int| i <= k < j ==> is_digit(#[trigger] s@[k]),
        decreases s@.len() - j,
    {
        if j == s.len() || !(48 <= s[j] && s[j] <= 57) {
            return Some((acc, j));
        }
        let d: u64 = (s[j] - 48) as u64;
        if acc > (u64::MAX - d) / 10 {
            proof {
                let e = digits_end(s@, i as int);
                lemma_digits_end_bounds(s@, j as int);
                lemma_digits_end_bounds(s@, j + 1);
                lemma_digits_end_run(s@, j as int);
                assert(digits_end(s@, j as int) == digits_end(s@, j + 1));
                assert(digits_val(s@, i as int, j + 1) == acc * 10 + d);
                assert(acc * 10 + d > u64::MAX) by (nonlinear_arith)
                    requires
                        acc > (u64::MAX - d) / 10,
                        0 <= d <= 9,
                        acc >= 0,
                ;
                assert forall|m: int| i <= m < e implies is_digit(#[trigger] s@[m]) by {
                    if m < j {
                    } else {
                        assert(is_digit(s@[m]));
                    }
                }
                lemma_digits_val_extend(s@, i as int, j + 1, e);
            }
            return None;
        }
        acc = acc * 10 + d;
        j = j + 1;
        proof {
            assert(digits_end(s@, j - 1) == digits_end(s@, j as int));
        }
    }
}

/// Reads the wire integer starting at `i`.
pub fn parse_u64_at(s: &[u8], i: usize) -> (r: Result<(u64, usize), Error>)
    requires
        i <= s@.len(),
    ensures
        match r {
            Ok((n, j)) => spec_parse(s@, i as int) == Some((BVal::Int(n), j as int)) && i < j
                <= s@.len(),
            Err(e) => e == Error::Decode && !(spec_parse(s@, i as int) matches Some(p)
                && p.0 is Int),
        },
{
    if i == s.len() || s[i] != 105 {
        return Err(Error::Decode);
    }
    match parse_digits_at(s, i + 1) {
        None => Err(Error::Decode),
        Some((n, j)) => {
            if j == i + 1 {
                return Err(Error::Decode);
            }
            if j == s.len() || s[j] != 101 {
                return Err(Error::Decode);
            }
            Ok((n, j + 1))
        },
    }
}

/// Reads the wire byte string starting at `i`.
pub fn parse_bytes_at(s: &[u8], i: usize) -> (r: Result<(Vec<u8>, usize), Error>)
    requires
        i <= s@.len(),
    ensures
        match r {
            Ok((b, j)) => spec_parse(s@, i as int) == Some((BVal::Bytes(b@), j as int)) && i < j
                <= s@.len(),
            Err(e) => e == Error::Decode && !(spec_parse(s@, i as int) matches Some(p)
                && p.0 is Bytes),
        },
{
    if i == s.len() || !(48 <= s[i] && s[i] <= 57) {
        return Err(Error::Decode);
    }
    match parse_digits_at(s, i) {
        None => {
            proof {
                lemma_digits_end_bounds(s@, i as int);
            }
            Err(Error::Decode)
        },
        Some((n, j)) => {
            if j == s.len() || s[j] != 58 {
                return Err(Error::Decode);
            }
            let rem: usize = s.len() - (j + 1);
            if n > rem as u64 {
                return Err(Error::Decode);
            }
            let nn: usize = n as usize;
            let b = vstd::slice::slice_to_vec(vstd::slice::slice_subrange(s, j + 1, j + 1 + nn));
            Ok((b, j + 1 + nn))
        },
    }
}

/// Steps over the wire value starting at `i` without keeping it.
pub fn skip_at(s: &[u8], i: usize) -> (r: Result<usize, Error>)
    requires
        i <= s@.len(),
    ensures
        match r {
            Ok(j) => spec_parse(s@, i as int) matches Some(p) && p.1 == j as int && i < j
                <= s@.len(),
            Err(e) => e == Error::Decode && spec_parse(s@, i as int) is None,
        },
    decreases s@.len() - i, 0int,
{
    if i == s.len() {
        return Err(Error::Decode);
    }
    let c = s[i];
    if c == 105 {
        match parse_u64_at(s, i) {
            Ok((_, j)) => Ok(j),
            Err(e) => Err(e),
        }
    } else if 48 <= c && c <= 57 {
        match parse_bytes_at(s, i) {
            Ok((_, j)) => Ok(j),
            Err(e) => Err(e),
        }
    } else if c == 108 {
        match skip_items_at(s, i + 1) {
            Ok(j) => Ok(j),
            Err(e) => Err(e),
        }
    } else if c == 100 {
        match skip_pairs_at(s, i + 1) {
            Ok(j) => Ok(j),
            Err(e) => Err(e),
        }
    } else {
        Err(Error::Decode)
    }
}

/// Steps over list items up to and past their closing `e`.
fn skip_items_at(s: &[u8], i: usize) -> (r: Result<usize, Error>)
    requires
        i <= s@.len(),
    ensures
        match r {
            Ok(j) => spec_parse_items(s@, i as int) matches Some(p) && p.1 == j as int && i < j
                <= s@.len(),
            Err(e) => e == Error::Decode && spec_parse_items(s@, i as int) is None,
        },
    decreases s@.len() - i, 1int,
{
    if i == s.len() {
        return Err(Error::Decode);
    }
    if s[i] == 101 {
        return Ok(i + 1);
    }
    let j = skip_at(s, i)?;
    let k = skip_items_at(s, j)?;
    Ok(k)
}

/// Steps over dictionary pairs up to and past their closing `e`.
fn skip_pairs_at(s: &[u8], i: usize) -> (r: Result<usize, Error>)
    requires
        i <= s@.len(),
    ensures
        match r {
            Ok(j) => spec_parse_pairs(s@, i as int) matches Some(p) && p.1 == j as int && i < j
                <= s@.len(),
            Err(e) => e == Error::Decode && spec_parse_pairs(s@, i as int) is None,
        },
    decreases s@.len() - i, 1int,
{
    if i == s.len() {
        return Err(Error::Decode);
    }
    if s[i] == 101 {
        return Ok(i + 1);
    }
    let (_, j) = parse_bytes_at(s, i)?;
    let j2 = skip_at(s, j)?;
    let k = skip_pairs_at(s, j2)?;
    Ok(k)
}

/// The value under the first occurrence of `key`, if any. Decoders of this
/// crate read the first occurrence and ignore later duplicates.
pub open spec fn dict_get(pairs: Seq<(Seq<u8>, BVal)>, key: Seq<u8>) -> Option<BVal>
    decreases pairs.len(),
{
    if pairs.len() == 0 {
        None
    } else if pairs[0].0 == key {
        Some(pairs[0].1)
    } else {
        dict_get(pairs.drop_first(), key)
    }
}

pub proof fn lemma_dict_get_at(pairs: Seq<(Seq<u8>, BVal)>, key: Seq<u8>, ix: int)
    requires
        0 <= ix < pairs.len(),
        pairs[ix].0 == key,
        forall|m: int| 0 <= m < ix ==> #[trigger] pairs[m].0 != key,
    ensures
        dict_get(pairs, key) == Some(pairs[ix].1),
    decreases ix,
{
    if ix > 0 {
        lemma_dict_get_at(pairs.drop_first(), key, ix - 1);
    }
}

pub proof fn lemma_dict_get_none(pairs: Seq<(Seq<u8>, BVal)>, key: Seq<u8>)
    requires
        forall|m: int| 0 <= m < pairs.len() ==> #[trigger] pairs[m].0 != key,
    ensures
        dict_get(pairs, key) is None,
    decreases pairs.len(),
{
    if pairs.len() > 0 {
        lemma_dict_get_none(pairs.drop_first(), key);
    }
}

/// `entries` lists, for each parsed dictionary pair, its key bytes and the
/// position its value starts at in the buffer.
pub open spec fn entries_match(
    s: Seq<u8>,
    entries: Seq<(Vec<u8>, usize)>,
    pairs: Seq<(Seq<u8>, BVal)>,
) -> bool {
    &&& entries.len() == pairs.len()
    &&& forall|k: int| 0 <= k < entries.len() ==> (#[trigger] entries[k]).0@ == pairs[k].0
    &&& forall|k: int|
        0 <= k < entries.len() ==> (spec_parse(s, (#[trigger] entries[k]).1 as int) matches Some(p)
            && p.0 == pairs[k].1)
}

/// Walks the dictionary starting at `i`: returns each key with the position
/// of its value, the position past the closing `e`, and the ghost pairs.
pub fn parse_dict_at(s: &[u8], i: usize) -> (r: (
    Result<(Vec<(Vec<u8>, usize)>, usize), Error>,
    Ghost<Seq<(Seq<u8>, BVal)>>,
))
    requires
        i <= s@.len(),
    ensures
        match r.0 {
            Ok((entries, j)) => spec_parse(s@, i as int) == Some((BVal::Dict(r.1@), j as int))
                && entries_match(s@, entries@, r.1@) && i < j <= s@.len(),
            Err(e) => e == Error::Decode && !(spec_parse(s@, i as int) matches Some(p)
                && p.0 is Dict),
        },
{
    if i == s.len() || s[i] != 100 {
        return (Err(Error::Decode), Ghost(Seq::empty()));
    }
    let ghost i0: int = i + 1;
    let mut entries: Vec<(Vec<u8>, usize)> = Vec::new();
    let ghost mut pairs: Seq<(Seq<u8>, BVal)> = Seq::empty();
    let mut j: usize = i + 1;
    loop
        invariant
            i0 <= j <= s@.len(),
            i + 1 == i0,
            i < s@.len(),
            s@[i as int] == 100,
            entries_match(s@, entries@, pairs),
            (match spec_parse_pairs(s@, j as int) {
                Some((rest, end)) => spec_parse_pairs(s@, i0) == Some((pairs + rest, end)),
                None => spec_parse_pairs(s@, i0) is None,
            }),
        decreases s@.len() - j,
    {
        if j == s.len() {
            return (Err(Error::Decode), Ghost(Seq::empty()));
        }
        if s[j] == 101 {
            proof {
                assert(pairs + Seq::<(Seq<u8>, BVal)>::empty() =~= pairs);
            }
            return (Ok((entries, j + 1)), Ghost(pairs));
        }
        let kres = parse_bytes_at(s, j);
        match kres {
            Err(e) => {
                return (Err(Error::Decode), Ghost(Seq::empty()));
            },
            Ok((key, j1)) => {
                let sres = skip_at(s, j1);
                match sres {
                    Err(e) => {
                        return (Err(Error::Decode), Ghost(Seq::empty()));
                    },
                    Ok(j2) => {
                        let ghost v = spec_parse(s@, j1 as int)->Some_0.0;
                        let ghost oldpairs = pairs;
                        let ghost olde = entries@;
                        proof {
                            pairs = pairs.push((key@, v));
                        }
                        entries.push((key, j1));
                        proof {
                            assert forall|k: int| 0 <= k < entries@.len() implies (
                            #[trigger] entries@[k]).0@ == pairs[k].0 && (spec_parse(
                                s@,
                                entries@[k].1 as int,
                            ) matches Some(p)
                                && p.0 == pairs[k].1) by {
                                if k < entries@.len() - 1 {
                                    assert(entries@[k] == olde[k]);
                                    assert(pairs[k] == oldpairs[k]);
                                }
                            }
                            match spec_parse_pairs(s@, j2 as int) {
                                Some((rest, end)) => {
                                    assert(spec_parse_pairs(s@, j as int) == Some(
                                        (seq![(key@, v)] + rest, end),
                                    ));
                                    assert(oldpairs + (seq![(key@, v)] + rest) =~= pairs + rest);
                                },
                                None => {},
                            }
                        }
                        j = j2;
                    },
                }
            },
        }
    }
}

/// Compares two byte strings.
pub fn bytes_eq(a: &[u8], b: &[u8]) -> (r: bool)
    ensures
        r <==> a@ == b@,
{
    if a.len() != b.len() {
        proof {
            assert(a@.len() != b@.len());
        }
        return false;
    }
    let mut k: usize = 0;
    loop
        invariant
            0 <= k <= a@.len(),
            a@.len() == b@.len(),
            forall|m: int| 0 <= m < k ==> a@[m] == b@[m],
        decreases a@.len() - k,
    {
        if k == a.len() {
            proof {
                assert(a@ =~= b@);
            }
            return true;
        }
        if a[k] != b[k] {
            return false;
        }
        k = k + 1;
    }
}

/// The index of the first entry whose key is `key`.
pub fn dict_find(entries: &Vec<(Vec<u8>, usize)>, key: &[u8]) -> (r: Option<usize>)
    ensures
        match r {
            Some(ix) => ix < entries@.len() && entries@[ix as int].0@ == key@ && forall|m: int|
                0 <= m < ix ==> (#[trigger] entries@[m]).0@ != key@,
            None => forall|m: int|
                0 <= m < entries@.len() ==> (#[trigger] entries@[m]).0@ != key@,
        },
{
    let mut ix: usize = 0;
    loop
        invariant
            0 <= ix <= entries@.len(),
            forall|m: int| 0 <= m < ix ==> (#[trigger] entries@[m]).0@ != key@,
        decreases entries@.len() - ix,
    {
        if ix == entries.len() {
            return None;
        }
        if bytes_eq(entries[ix].0.as_slice(), key) {
            return Some(ix);
        }
        ix = ix + 1;
    }
}

/// The position of the value under `key`, or a decode error where the
/// dictionary has no such key.
pub fn get_pos(
    s: &[u8],
    entries: &Vec<(Vec<u8>, usize)>,
    Ghost(pairs): Ghost<Seq<(Seq<u8>, BVal)>>,
    key: &[u8],
) -> (r: Result<usize, Error>)
    requires
        entries_match(s@, entries@, pairs),
    ensures
        match r {
            Ok(pos) => pos < s@.len() && (dict_get(pairs, key@) matches Some(v) && (spec_parse(
                s@,
                pos as int,
            ) matches Some(p)
                && p.0 == v)),
            Err(e) => e == Error::Decode && dict_get(pairs, key@) is None,
        },
{
    match dict_find(entries, key) {
        None => {
            proof {
                assert forall|m: int| 0 <= m < pairs.len() implies #[trigger] pairs[m].0
                    != key@ by {
                    assert(entries@[m].0@ == pairs[m].0);
                    assert(entries@[m].0@ != key@);
                }
                lemma_dict_get_none(pairs, key@);
            }
            Err(Error::Decode)
        },
        Some(ix) => {
            proof {
                assert forall|m: int| 0 <= m < ix as int implies #[trigger] pairs[m].0
                    != key@ by {
                    assert(entries@[m].0@ == pairs[m].0);
                    assert(entries@[m].0@ != key@);
                }
                assert(entries@[ix as int].0@ == pairs[ix as int].0);
                lemma_dict_get_at(pairs, key@, ix as int);
            }
            let pos = entries[ix].1;
            Ok(pos)
        },
    }
}

/// The integer under `key`, or a decode error where it is missing or is not
/// a wire integer.
pub fn get_u64(
    s: &[u8],
    entries: &Vec<(Vec<u8>, usize)>,
    Ghost(pairs): Ghost<Seq<(Seq<u8>, BVal)>>,
    key: &[u8],
) -> (r: Result<u64, Error>)
    requires
        entries_match(s@, entries@, pairs),
    ensures
        match r {
            Ok(n) => dict_get(pairs, key@) == Some(BVal::Int(n)),
            Err(e) => e == Error::Decode && !(dict_get(pairs, key@) matches Some(v) && v is Int),
        },
{
    let pos = get_pos(s, entries, Ghost(pairs), key)?;
    match parse_u64_at(s, pos) {
        Ok((n, _)) => Ok(n),
        Err(e) => Err(e),
    }
}

/// The integer under `key` where present, `None` where the key is absent,
/// or a decode error where the key holds something other than an integer.
pub fn get_opt_u64(
    s: &[u8],
    entries: &Vec<(Vec<u8>, usize)>,
    Ghost(pairs): Ghost<Seq<(Seq<u8>, BVal)>>,
    key: &[u8],
) -> (r: Result<Option<u64>, Error>)
    requires
        entries_match(s@, entries@, pairs),
    ensures
        match r {
            Ok(o) => (match o {
                Some(n) => dict_get(pairs, key@) == Some(BVal::Int(n)),
                None => dict_get(pairs, key@) is None,
            }),
            Err(e) => e == Error::Decode && (dict_get(pairs, key@) matches Some(v) && !(v is Int)),
        },
{
    match dict_find(entries, key) {
        None => {
            proof {
                assert forall|m: int| 0 <= m < pairs.len() implies #[trigger] pairs[m].0
                    != key@ by {
                    assert(entries@[m].0@ == pairs[m].0);
                    assert(entries@[m].0@ != key@);
                }
                lemma_dict_get_none(pairs, key@);
            }
            Ok(None)
        },
        Some(ix) => {
            proof {
                assert forall|m: int| 0 <= m < ix as int implies #[trigger] pairs[m].0
                    != key@ by {
                    assert(entries@[m].0@ == pairs[m].0);
                    assert(entries@[m].0@ != key@);
                }
                assert(entries@[ix as int].0@ == pairs[ix as int].0);
                lemma_dict_get_at(pairs, key@, ix as int);
            }
            let pos = entries[ix].1;
            match parse_u64_at(s, pos) {
                Ok((n, _)) => Ok(Some(n)),
                Err(e) => Err(e),
            }
        },
    }
}

/// The byte string under `key`, or a decode error where it is missing or is
/// not a wire byte string.
pub fn get_bytes(
    s: &[u8],
    entries: &Vec<(Vec<u8>, usize)>,
    Ghost(pairs): Ghost<Seq<(Seq<u8>, BVal)>>,
    key: &[u8],
) -> (r: Result<Vec<u8>, Error>)
    requires
        entries_match(s@, entries@, pairs),
    ensures
        match r {
            Ok(b) => dict_get(pairs, key@) == Some(BVal::Bytes(b@)),
            Err(e) => e == Error::Decode && !(dict_get(pairs, key@) matches Some(v)
                && v is Bytes),
        },
{
    let pos = get_pos(s, entries, Ghost(pairs), key)?;
    match parse_bytes_at(s, pos) {
        Ok((b, _)) => Ok(b),
        Err(e) => Err(e),
    }
}

} // verus!
