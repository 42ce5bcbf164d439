//! Rows as bytes.
//!
//! A row is the number of its values, then each value: the number of its variant, then what
//! the variant holds. Numbers are of variable length, seven bits a byte.
use vstd::prelude::*;
use vstd::bytes::*;
use vstd::utf8::*;

use crate::value::{val_of, vals, CompoundKind, Val, Value};

verus! {

/// A number of variable length: seven bits a byte, low ones first, with the high bit set on
/// all bytes but the last.
pub open spec fn varint(n: nat) -> Seq<u8>
    decreases n,
{
    if n < 128 {
        seq![n as u8]
    } else {
        seq![(n % 128 + 128) as u8] + varint(n / 128)
    }
}

/// The number of variable length at the start of bytes, of which `i` went before, and the
/// bytes after it. There may be `limit` bytes, of which the last may not exceed `last`.
pub open spec fn taken_varint(b: Seq<u8>, i: nat, limit: nat, last: nat) -> Option<(nat, Seq<u8>)>
    decreases limit - i,
{
    if i >= limit || b.len() == 0 {
        None
    } else if b[0] < 128 {
        if i == limit - 1 && b[0] > last {
            None
        } else {
            Some((b[0] as nat, b.skip(1)))
        }
    } else {
        match taken_varint(b.skip(1), i + 1, limit, last) {
            Some((high, rest)) => Some(((b[0] - 128 + 128 * high) as nat, rest)),
            None => None,
        }
    }
}

/// An integer as a number that is not negative: positive ones twice, negative ones in between.
pub open spec fn zigzag(n: int) -> nat {
    if n >= 0 {
        (2 * n) as nat
    } else {
        (-2 * n - 1) as nat
    }
}

/// The integer that a number stands for.
pub open spec fn unzigzag(z: nat) -> int {
    if z % 2 == 0 {
        (z / 2) as int
    } else {
        -((z + 1) / 2)
    }
}

/// A number of 32 bits at the start of bytes.
pub open spec fn taken_u32(b: Seq<u8>) -> Option<(nat, Seq<u8>)> {
    taken_varint(b, 0, 5, 15)
}

/// A number of 64 bits at the start of bytes.
pub open spec fn taken_u64(b: Seq<u8>) -> Option<(nat, Seq<u8>)> {
    taken_varint(b, 0, 10, 1)
}

/// The length of a text at the start of bytes: a number of the machine's size.
pub open spec fn taken_len(b: Seq<u8>) -> Option<(nat, Seq<u8>)> {
    if usize::MAX == u64::MAX {
        taken_u64(b)
    } else {
        taken_u32(b)
    }
}

/// `postcard::to_allocvec` of a `u32`: a variable-length integer, seven bits to a byte, the
/// lowest bits first.
#[verifier::external_body]
fn encode_u32(n: u32) -> (r: Vec<u8>)
    ensures
        r@ == varint(n as nat),
{
    postcard::to_allocvec(&n).unwrap_or_default()
}

/// `postcard::to_allocvec` of a `u64`: a variable-length integer, as of a `u32`.
#[verifier::external_body]
fn encode_u64(n: u64) -> (r: Vec<u8>)
    ensures
        r@ == varint(n as nat),
{
    postcard::to_allocvec(&n).unwrap_or_default()
}

/// `postcard::to_allocvec` of an `i64`: folded onto the numbers from zero on, then a
/// variable-length integer.
#[verifier::external_body]
fn encode_i64(n: i64) -> (r: Vec<u8>)
    ensures
        r@ == varint(zigzag(n as int)),
{
    postcard::to_allocvec(&n).unwrap_or_default()
}

/// `postcard::to_allocvec` of a text: its length in bytes, then the bytes.
#[verifier::external_body]
fn encode_str(s: &str) -> (r: Vec<u8>)
    ensures
        r@ == varint(encode_utf8(s@).len()) + encode_utf8(s@),
{
    postcard::to_allocvec(s).unwrap_or_default()
}

/// `postcard::take_from_bytes` for a `u32`: the variable-length integer at the start and the
/// bytes after it. It fails where the bytes end early or the number is too large; the error
/// is told in its own words.
#[verifier::external_body]
fn take_u32(b: &[u8]) -> (r: Result<(u32, &[u8]), String>)
    ensures
        match taken_u32(b@) {
            Some((n, rest)) => r matches Ok((m, s)) && m == n && s@ == rest,
            None => r is Err,
        },
{
    postcard::take_from_bytes(b).map_err(|e| e.to_string())
}

/// `postcard::take_from_bytes` for a `u64`: as for a `u32`, with more bytes at most.
#[verifier::external_body]
fn take_u64(b: &[u8]) -> (r: Result<(u64, &[u8]), String>)
    ensures
        match taken_u64(b@) {
            Some((n, rest)) => r matches Ok((m, s)) && m == n && s@ == rest,
            None => r is Err,
        },
{
    postcard::take_from_bytes(b).map_err(|e| e.to_string())
}

/// `postcard::take_from_bytes` for an `i64`: as for a `u64`, unfolded.
#[verifier::external_body]
fn take_i64(b: &[u8]) -> (r: Result<(i64, &[u8]), String>)
    ensures
        match taken_u64(b@) {
            Some((z, rest)) => r matches Ok((m, s)) && m == unzigzag(z) && s@ == rest,
            None => r is Err,
        },
{
    postcard::take_from_bytes(b).map_err(|e| e.to_string())
}

/// `postcard::take_from_bytes` for a `String`: a length, then as many bytes, which must be
/// UTF-8; an error is told in its own words.
#[verifier::external_body]
fn take_string(b: &[u8]) -> (r: Result<(String, &[u8]), String>)
    ensures
        match taken_text(b@) {
            Some((t, rest)) => r matches Ok((m, s)) && m@ == t && s@ == rest,
            None => r is Err,
        },
{
    postcard::take_from_bytes(b).map_err(|e| e.to_string())
}

/// The text at the start of bytes.
pub open spec fn taken_text(b: Seq<u8>) -> Option<(Seq<char>, Seq<u8>)> {
    match taken_len(b) {
        Some((n, rest)) => if n <= rest.len() && valid_utf8(rest.take(n as int)) {
            Some((decode_utf8(rest.take(n as int)), rest.skip(n as int)))
        } else {
            None
        },
        None => None,
    }
}

/// The number of a kind.
pub open spec fn kind_number(k: CompoundKind) -> nat {
    match k {
        CompoundKind::List => 0,
        CompoundKind::Pair => 1,
        CompoundKind::Dict => 2,
        CompoundKind::Struct => 3,
    }
}

/// The bytes of a text.
pub open spec fn text_bytes(s: Seq<char>) -> Seq<u8> {
    varint(encode_utf8(s).len()) + encode_utf8(s)
}

/// The bytes of a value.
pub open spec fn value_bytes(v: Val) -> Seq<u8>
    decreases v, 0nat,
{
    match v {
        Val::Number(n) => varint(0) + varint(zigzag(n as int)),
        Val::Float(b) => varint(1) + spec_u64_to_le_bytes(b),
        Val::String(s) => varint(2) + text_bytes(s),
        Val::Name(s) => varint(3) + text_bytes(s),
        Val::Time(t) => varint(4) + varint(zigzag(t as int)),
        Val::Duration(d) => varint(5) + varint(zigzag(d as int)),
        Val::Compound(k, vs) => varint(6) + varint(kind_number(k)) + varint(vs.len()) + items_bytes(
            vs,
            vs.len(),
        ),
        Val::Null => varint(7),
    }
}

/// The bytes of the first `n` values.
pub open spec fn items_bytes(vs: Seq<Val>, n: nat) -> Seq<u8>
    decreases vs, n,
{
    if n == 0 || n > vs.len() {
        Seq::empty()
    } else {
        items_bytes(vs, (n - 1) as nat) + value_bytes(vs[n - 1])
    }
}

/// The bytes of a row.
pub open spec fn row_bytes(vs: Seq<Val>) -> Seq<u8> {
    varint(vs.len()) + items_bytes(vs, vs.len())
}

/// What is left after a number is less.
pub proof fn lemma_taken_varint(b: Seq<u8>, i: nat, limit: nat, last: nat)
    ensures
        taken_varint(b, i, limit, last) matches Some((n, rest)) ==> rest.len() < b.len(),
    decreases limit - i,
{
    if i < limit && b.len() > 0 && b[0] >= 128 {
        lemma_taken_varint(b.skip(1), i + 1, limit, last);
    }
}

/// The kind of a number.
pub open spec fn kind_of(n: nat) -> Option<CompoundKind> {
    if n == 0 {
        Some(CompoundKind::List)
    } else if n == 1 {
        Some(CompoundKind::Pair)
    } else if n == 2 {
        Some(CompoundKind::Dict)
    } else if n == 3 {
        Some(CompoundKind::Struct)
    } else {
        None
    }
}

/// The value at the start of bytes, and the bytes after it.
pub open spec fn taken_value(b: Seq<u8>) -> Option<(Val, Seq<u8>)>
    decreases b.len(), 0nat,
{
    match taken_u32(b) {
        None => None,
        Some((tag, rest)) => if tag == 0 {
            match taken_u64(rest) {
                Some((z, end)) => Some((Val::Number(unzigzag(z) as i64), end)),
                None => None,
            }
        } else if tag == 1 {
            if rest.len() >= 8 {
                Some((Val::Float(spec_u64_from_le_bytes(rest.take(8))), rest.skip(8)))
            } else {
                None
            }
        } else if tag == 2 {
            match taken_text(rest) {
                Some((s, end)) => Some((Val::String(s), end)),
                None => None,
            }
        } else if tag == 3 {
            match taken_text(rest) {
                Some((s, end)) => Some((Val::Name(s), end)),
                None => None,
            }
        } else if tag == 4 {
            match taken_u64(rest) {
                Some((z, end)) => Some((Val::Time(unzigzag(z) as i64), end)),
                None => None,
            }
        } else if tag == 5 {
            match taken_u64(rest) {
                Some((z, end)) => Some((Val::Duration(unzigzag(z) as i64), end)),
                None => None,
            }
        } else if tag == 6 {
            match taken_u32(rest) {
                None => None,
                Some((k, after)) => match kind_of(k) {
                    None => None,
                    Some(kind) => match taken_u64(after) {
                        None => None,
                        Some((n, start)) => {
                            proof {
                                lemma_taken_varint(b, 0, 5, 15);
                                lemma_taken_varint(rest, 0, 5, 15);
                                lemma_taken_varint(after, 0, 10, 1);
                            }
                            match taken_items(start, n) {
                                Some((vs, end)) => Some((Val::Compound(kind, vs), end)),
                                None => None,
                            }
                        },
                    },
                },
            }
        } else if tag == 7 {
            Some((Val::Null, rest))
        } else {
            None
        },
    }
}

/// The `n` values at the start of bytes, and the bytes after them.
pub open spec fn taken_items(b: Seq<u8>, n: nat) -> Option<(Seq<Val>, Seq<u8>)>
    decreases b.len(), 1nat,
{
    if n == 0 {
        Some((Seq::empty(), b))
    } else {
        match taken_value(b) {
            None => None,
            Some((v, rest)) => if rest.len() >= b.len() {
                None
            } else {
                match taken_items(rest, (n - 1) as nat) {
                    Some((vs, end)) => Some((seq![v] + vs, end)),
                    None => None,
                }
            },
        }
    }
}

/// The row at the start of bytes. Bytes after it are not looked at.
pub open spec fn taken_row(b: Seq<u8>) -> Option<Seq<Val>> {
    match taken_u64(b) {
        Some((n, rest)) => match taken_items(rest, n) {
            Some((vs, _)) => Some(vs),
            None => None,
        },
        None => None,
    }
}

/// Appends the bytes of a value.
fn push_value(out: &mut Vec<u8>, v: &Value)
    ensures
        final(out)@ == old(out)@ + value_bytes(v@),
    decreases v,
{
    let ghost start = out@;
    let tag: u32 = match v {
        Value::Number(_) => 0,
        Value::Float(_) => 1,
        Value::String(_) => 2,
        Value::Name(_) => 3,
        Value::Time(_) => 4,
        Value::Duration(_) => 5,
        Value::Compound(..) => 6,
        Value::Null => 7,
    };
    let mut head = encode_u32(tag);
    out.append(&mut head);
    match v {
        Value::Number(n) => {
            let mut more = encode_i64(*n);
            out.append(&mut more);
        },
        Value::Float(b) => {
            let mut more = u64_to_le_bytes(*b);
            out.append(&mut more);
        },
        Value::String(s) => {
            let mut more = encode_str(s.as_str());
            out.append(&mut more);
        },
        Value::Name(s) => {
            let mut more = encode_str(s.as_str());
            out.append(&mut more);
        },
        Value::Time(t) => {
            let mut more = encode_i64(*t);
            out.append(&mut more);
        },
        Value::Duration(d) => {
            let mut more = encode_i64(*d);
            out.append(&mut more);
        },
        Value::Compound(k, vs) => {
            let kind: u32 = match k {
                CompoundKind::List => 0,
                CompoundKind::Pair => 1,
                CompoundKind::Dict => 2,
                CompoundKind::Struct => 3,
            };
            let mut more = encode_u32(kind);
            out.append(&mut more);
            let mut count = encode_u64(vs.len() as u64);
            out.append(&mut count);
            let ghost opened = out@;
            let ghost all = vals(vs@);
            let mut n: usize = 0;
            assert(out@ =~= opened + items_bytes(all, 0));
            while n < vs.len()
                invariant
                    n <= vs@.len(),
                    out@ == opened + items_bytes(all, n as nat),
                decreases vs@.len() - n,
            {
                assert(decreases_to!(vs => vs@));
                assert(decreases_to!(vs@ => vs@[n as int]));
                assert(all[n as int] == val_of(vs@[n as int]));
                push_value(out, &vs[n]);
                assert(out@ =~= opened + items_bytes(all, (n + 1) as nat));
                n += 1;
            }
        },
        Value::Null => {},
    }
    assert(out@ =~= start + value_bytes(v@));
}

/// The bytes of a row.
pub fn serialize_tuple(tuple: &Vec<Value>) -> (r: Vec<u8>)
    ensures
        r@ == row_bytes(vals(tuple@)),
{
    let mut out = encode_u64(tuple.len() as u64);
    let ghost opened = out@;
    let ghost all = vals(tuple@);
    let mut n: usize = 0;
    assert(out@ =~= opened + items_bytes(all, 0));
    while n < tuple.len()
        invariant
            n <= tuple@.len(),
            out@ == opened + items_bytes(all, n as nat),
        decreases tuple@.len() - n,
    {
        assert(all[n as int] == val_of(tuple@[n as int]));
        push_value(&mut out, &tuple[n]);
        assert(out@ =~= opened + items_bytes(all, (n + 1) as nat));
        n += 1;
    }
    out
}

/// The bytes of a value, as an index holds them.
pub fn encode_index_key(value: &Value) -> (r: Vec<u8>)
    ensures
        r@ == value_bytes(value@),
{
    let mut out: Vec<u8> = Vec::new();
    push_value(&mut out, value);
    assert(out@ =~= value_bytes(value@));
    out
}

/// Why bytes are no row.
#[derive(Debug)]
pub struct DecodeError {
    pub detail: String,
}

impl DecodeError {
    /// The error's message.
    pub fn message(&self) -> (r: String)
        ensures
            r@ == "failed to decode tuple: "@ + self.detail@,
    {
        "failed to decode tuple: ".to_owned().concat(self.detail.as_str())
    }
}

/// The value at the start of bytes, and the bytes after it.
fn take_value(b: &[u8]) -> (r: Result<(Value, &[u8]), DecodeError>)
    ensures
        match taken_value(b@) {
            Some((v, rest)) => r matches Ok((w, s)) && w@ == v && s@ == rest && rest.len() < b@.len(),
            None => r is Err,
        },
    decreases b@.len(), 0nat,
{
    proof {
        lemma_taken_varint(b@, 0, 5, 15);
    }
    let (tag, rest) = match take_u32(b) {
        Ok(x) => x,
        Err(detail) => return Err(DecodeError { detail }),
    };
    proof {
        lemma_taken_varint(rest@, 0, 5, 15);
        lemma_taken_varint(rest@, 0, 10, 1);
    }
    if tag == 0 || tag == 4 || tag == 5 {
        return match take_i64(rest) {
            Ok((n, end)) => {
                let v = if tag == 0 {
                    Value::Number(n)
                } else if tag == 4 {
                    Value::Time(n)
                } else {
                    Value::Duration(n)
                };
                Ok((v, end))
            },
            Err(detail) => Err(DecodeError { detail }),
        };
    }
    if tag == 1 {
        if rest.len() < 8 {
            return Err(DecodeError { detail: "Hit the end of buffer, expected more".to_owned() });
        }
        let (bits, end) = rest.split_at(8);
        assert(bits@ =~= rest@.take(8));
        assert(end@ =~= rest@.skip(8));
        return Ok((Value::Float(u64_from_le_bytes(bits)), end));
    }
    if tag == 2 || tag == 3 {
        return match take_string(rest) {
            Ok((s, end)) => {
                let v = if tag == 2 {
                    Value::String(s)
                } else {
                    Value::Name(s)
                };
                Ok((v, end))
            },
            Err(detail) => Err(DecodeError { detail }),
        };
    }
    if tag == 6 {
        let (k, after) = match take_u32(rest) {
            Ok(x) => x,
            Err(detail) => return Err(DecodeError { detail }),
        };
        let kind = if k == 0 {
            CompoundKind::List
        } else if k == 1 {
            CompoundKind::Pair
        } else if k == 2 {
            CompoundKind::Dict
        } else if k == 3 {
            CompoundKind::Struct
        } else {
            return Err(DecodeError { detail: "Serde Deserialization Error".to_owned() });
        };
        proof {
            lemma_taken_varint(after@, 0, 10, 1);
        }
        let (n, start) = match take_u64(after) {
            Ok(x) => x,
            Err(detail) => return Err(DecodeError { detail }),
        };
        return match take_items(start, n) {
            Ok((vs, end)) => Ok((Value::Compound(kind, vs), end)),
            Err(e) => Err(e),
        };
    }
    if tag == 7 {
        return Ok((Value::Null, rest));
    }
    Err(DecodeError { detail: "Serde Deserialization Error".to_owned() })
}

/// Values in front of others.
pub open spec fn in_front(acc: Seq<Val>, r: Option<(Seq<Val>, Seq<u8>)>) -> Option<(Seq<Val>, Seq<u8>)> {
    match r {
        Some((vs, end)) => Some((acc + vs, end)),
        None => None,
    }
}

/// The values at the start of bytes, and the bytes after them.
fn take_items(b: &[u8], count: u64) -> (r: Result<(Vec<Value>, &[u8]), DecodeError>)
    ensures
        match taken_items(b@, count as nat) {
            Some((vs, rest)) => r matches Ok((ws, s)) && vals(ws@) == vs && s@ == rest && rest.len()
                <= b@.len(),
            None => r is Err,
        },
    decreases b@.len(), 1nat,
{
    let ghost goal = taken_items(b@, count as nat);
    let mut out: Vec<Value> = Vec::new();
    let mut rest: &[u8] = b;
    let mut left: u64 = count;
    assert(vals(out@) =~= Seq::<Val>::empty());
    assert(goal == in_front(vals(out@), goal)) by {
        if let Some((vs, end)) = goal {
            assert(Seq::<Val>::empty() + vs =~= vs);
        }
    }
    while left > 0
        invariant
            rest@.len() <= b@.len(),
            goal == in_front(vals(out@), taken_items(rest@, left as nat)),
        decreases left,
    {
        let ghost before = vals(out@);
        let ghost here = rest@;
        match take_value(rest) {
            Ok((v, end)) => {
                let ghost w = v@;
                out.push(v);
                assert(vals(out@) =~= before.push(w));
                proof {
                    if let Some((vs, e)) = taken_items(end@, (left - 1) as nat) {
                        assert(before.push(w) + vs =~= before + (seq![w] + vs));
                    }
                }
                rest = end;
            },
            Err(e) => {
                return Err(e);
            },
        }
        left -= 1;
    }
    assert(vals(out@) + Seq::<Val>::empty() =~= vals(out@));
    Ok((out, rest))
}

/// The row that bytes hold.
pub fn deserialize_tuple(data: &[u8]) -> (r: Result<Vec<Value>, DecodeError>)
    ensures
        match taken_row(data@) {
            Some(vs) => r matches Ok(ws) && vals(ws@) == vs,
            None => r is Err,
        },
{
    match take_u64(data) {
        Err(detail) => Err(DecodeError { detail }),
        Ok((n, rest)) => match take_items(rest, n) {
            Ok((vs, _end)) => Ok(vs),
            Err(e) => Err(e),
        },
    }
}

/// How many numbers fit into `k` bytes and one more that may not exceed `last`.
spec fn capacity(k: nat, last: nat) -> nat
    decreases k,
{
    if k == 0 {
        last + 1
    } else {
        128 * capacity((k - 1) as nat, last)
    }
}

proof fn lemma_capacity()
    ensures
        capacity(4, 15) == 0x1_0000_0000,
        capacity(9, 1) == 0x1_0000_0000_0000_0000,
{
    reveal_with_fuel(capacity, 10);
}

proof fn lemma_varint(n: nat, rest: Seq<u8>, i: nat, limit: nat, last: nat)
    requires
        i < limit,
        last < 128,
        n < capacity((limit - 1 - i) as nat, last),
    ensures
        taken_varint(varint(n) + rest, i, limit, last) == Some((n, rest)),
    decreases n,
{
    let b = varint(n) + rest;
    if n < 128 {
        assert(b[0] == n as u8);
        assert(b.skip(1) =~= rest);
        if i == limit - 1 {
            assert(capacity(0, last) == last + 1);
        }
    } else {
        if i == limit - 1 {
            assert(capacity(0, last) == last + 1);
            assert(false);
        }
        let k = (limit - 1 - i) as nat;
        assert(capacity(k, last) == 128 * capacity((k - 1) as nat, last));
        lemma_varint(n / 128, rest, i + 1, limit, last);
        assert(b[0] == (n % 128 + 128) as u8);
        assert(b.skip(1) =~= varint(n / 128) + rest);
    }
}

/// A number of 32 bits is read back.
proof fn lemma_u32(n: nat, rest: Seq<u8>)
    requires
        n <= u32::MAX,
    ensures
        taken_u32(varint(n) + rest) == Some((n, rest)),
{
    lemma_capacity();
    lemma_varint(n, rest, 0, 5, 15);
}

/// A number of 64 bits is read back.
proof fn lemma_u64(n: nat, rest: Seq<u8>)
    requires
        n <= u64::MAX,
    ensures
        taken_u64(varint(n) + rest) == Some((n, rest)),
{
    lemma_capacity();
    lemma_varint(n, rest, 0, 10, 1);
}

/// A text is read back.
proof fn lemma_text(s: Seq<char>, rest: Seq<u8>)
    requires
        encode_utf8(s).len() <= usize::MAX,
    ensures
        taken_text(text_bytes(s) + rest) == Some((s, rest)),
{
    let e = encode_utf8(s);
    let n = e.len();
    assert(text_bytes(s) + rest =~= varint(n) + (e + rest));
    if usize::MAX == u64::MAX {
        lemma_u64(n, e + rest);
    } else {
        lemma_u32(n, e + rest);
    }
    assert((e + rest).take(n as int) =~= e);
    assert((e + rest).skip(n as int) =~= rest);
    encode_utf8_valid_utf8(s);
    encode_utf8_decode_utf8(s);
}

/// Whether a value can be held in memory: no text and no list in it is longer than that.
pub open spec fn storable(v: Val) -> bool
    decreases v, 0nat,
{
    match v {
        Val::String(s) => encode_utf8(s).len() <= usize::MAX,
        Val::Name(s) => encode_utf8(s).len() <= usize::MAX,
        Val::Compound(_, vs) => vs.len() <= usize::MAX && all_storable(vs, vs.len()),
        _ => true,
    }
}

/// Whether the first `n` values can be held in memory.
pub open spec fn all_storable(vs: Seq<Val>, n: nat) -> bool
    decreases vs, n,
{
    if n == 0 || n > vs.len() {
        true
    } else {
        all_storable(vs, (n - 1) as nat) && storable(vs[n - 1])
    }
}

/// Each of the values can be held in memory where all can.
pub proof fn lemma_storable(vs: Seq<Val>, n: nat, i: int)
    requires
        all_storable(vs, n),
        0 <= i < n <= vs.len(),
    ensures
        storable(vs[i]),
    decreases n,
{
    if i < n - 1 {
        lemma_storable(vs, (n - 1) as nat, i);
    }
}

/// The bytes of values begin with those of the first.
proof fn lemma_items_front(vs: Seq<Val>, i: int, n: nat)
    requires
        0 <= i,
        i + n <= vs.len(),
        n > 0,
    ensures
        items_bytes(vs.skip(i), n) == value_bytes(vs[i]) + items_bytes(vs.skip(i + 1), (n - 1) as nat),
    decreases n,
{
    let here = vs.skip(i);
    let next = vs.skip(i + 1);
    assert(here[n - 1] == vs[i + n - 1]);
    if n == 1 {
        assert(items_bytes(here, 0) =~= Seq::<u8>::empty());
        assert(items_bytes(here, 1) =~= value_bytes(vs[i]));
        assert(items_bytes(next, 0) =~= Seq::<u8>::empty());
        assert(items_bytes(here, 1) =~= value_bytes(vs[i]) + items_bytes(next, 0));
    } else {
        lemma_items_front(vs, i, (n - 1) as nat);
        assert(next[n - 2] == vs[i + n - 1]);
        assert(items_bytes(here, n) =~= value_bytes(vs[i]) + items_bytes(next, (n - 1) as nat));
    }
}

proof fn lemma_number(v: Val, tag: nat, n: int, rest: Seq<u8>)
    requires
        i64::MIN <= n <= i64::MAX,
        (tag == 0 && v == Val::Number(n as i64)) || (tag == 4 && v == Val::Time(n as i64)) || (tag == 5 && v
            == Val::Duration(n as i64)),
    ensures
        taken_value(varint(tag) + varint(zigzag(n)) + rest) == Some((v, rest)),
{
    let z = zigzag(n);
    let b = varint(tag) + varint(z) + rest;
    assert(b =~= varint(tag) + (varint(z) + rest));
    lemma_u32(tag, varint(z) + rest);
    lemma_u64(z, rest);
    assert(unzigzag(z) == n);
}

proof fn lemma_float(f: u64, rest: Seq<u8>)
    ensures
        taken_value(varint(1) + spec_u64_to_le_bytes(f) + rest) == Some((Val::Float(f), rest)),
{
    let e = spec_u64_to_le_bytes(f);
    lemma_auto_spec_u64_to_from_le_bytes();
    assert(e.len() == 8);
    assert(varint(1) + e + rest =~= varint(1) + (e + rest));
    lemma_u32(1, e + rest);
    assert((e + rest).take(8) =~= e);
    assert((e + rest).skip(8) =~= rest);
}

proof fn lemma_texts(v: Val, tag: nat, s: Seq<char>, rest: Seq<u8>)
    requires
        encode_utf8(s).len() <= usize::MAX,
        (tag == 2 && v == Val::String(s)) || (tag == 3 && v == Val::Name(s)),
    ensures
        taken_value(varint(tag) + text_bytes(s) + rest) == Some((v, rest)),
{
    let t = text_bytes(s);
    assert(varint(tag) + t + rest =~= varint(tag) + (t + rest));
    lemma_u32(tag, t + rest);
    lemma_text(s, rest);
}

proof fn lemma_compound(k: CompoundKind, vs: Seq<Val>, items: Seq<u8>, rest: Seq<u8>)
    requires
        vs.len() <= usize::MAX,
        taken_items(items + rest, vs.len()) == Some((vs, rest)),
    ensures
        taken_value(varint(6) + varint(kind_number(k)) + varint(vs.len()) + items + rest) == Some(
            (Val::Compound(k, vs), rest),
        ),
{
    let counted = varint(vs.len()) + (items + rest);
    let kinded = varint(kind_number(k)) + counted;
    let b = varint(6) + kinded;
    assert(varint(6) + varint(kind_number(k)) + varint(vs.len()) + items + rest =~= b);
    lemma_u32(6, kinded);
    lemma_u32(kind_number(k), counted);
    lemma_u64(vs.len(), items + rest);
    assert(kind_of(kind_number(k)) == Some(k));
}

/// A value is read back, whatever follows it.
pub proof fn value_round_trips(v: Val, rest: Seq<u8>)
    requires
        storable(v),
    ensures
        taken_value(value_bytes(v) + rest) == Some((v, rest)),
    decreases v, 0nat, 0nat,
{
    match v {
        Val::Number(n) => lemma_number(v, 0, n as int, rest),
        Val::Float(f) => lemma_float(f, rest),
        Val::String(s) => lemma_texts(v, 2, s, rest),
        Val::Name(s) => lemma_texts(v, 3, s, rest),
        Val::Time(t) => lemma_number(v, 4, t as int, rest),
        Val::Duration(d) => lemma_number(v, 5, d as int, rest),
        Val::Compound(k, vs) => {
            lemma_items(vs, 0, rest);
            assert(vs.skip(0) =~= vs);
            lemma_compound(k, vs, items_bytes(vs, vs.len()), rest);
        },
        Val::Null => lemma_u32(7, rest),
    }
}

/// Values from the `i`-th on are read back.
proof fn lemma_items(vs: Seq<Val>, i: nat, rest: Seq<u8>)
    requires
        i <= vs.len(),
        all_storable(vs, vs.len()),
    ensures
        taken_items(items_bytes(vs.skip(i as int), (vs.len() - i) as nat) + rest, (vs.len() - i) as nat)
            == Some((vs.skip(i as int), rest)),
    decreases vs, vs.len() - i, 1nat,
{
    let n = (vs.len() - i) as nat;
    let b = items_bytes(vs.skip(i as int), n) + rest;
    if n == 0 {
        assert(b =~= rest);
        assert(vs.skip(i as int) =~= Seq::<Val>::empty());
    } else {
        let v = vs[i as int];
        let later = items_bytes(vs.skip(i as int + 1), (n - 1) as nat) + rest;
        lemma_items_front(vs, i as int, n);
        assert(b =~= value_bytes(v) + later);
        lemma_storable(vs, vs.len(), i as int);
        value_round_trips(v, later);
        lemma_value_bytes(v);
        lemma_items(vs, i + 1, rest);
        assert(seq![v] + vs.skip(i as int + 1) =~= vs.skip(i as int));
    }
}

/// No value is without bytes.
proof fn lemma_value_bytes(v: Val)
    ensures
        value_bytes(v).len() > 0,
{
    assert(varint(0).len() > 0 && varint(1).len() > 0 && varint(2).len() > 0 && varint(3).len() > 0
        && varint(4).len() > 0 && varint(5).len() > 0 && varint(6).len() > 0 && varint(7).len() > 0);
}

/// A row is read back from its bytes.
pub proof fn row_round_trips(vs: Seq<Val>)
    requires
        vs.len() <= usize::MAX,
        all_storable(vs, vs.len()),
    ensures
        taken_row(row_bytes(vs)) == Some(vs),
{
    let items = items_bytes(vs, vs.len());
    assert(row_bytes(vs) =~= varint(vs.len()) + (items + Seq::empty()));
    lemma_u64(vs.len(), items + Seq::empty());
    lemma_items(vs, 0, Seq::empty());
    assert(vs.skip(0) =~= vs);
}

/// Rows of the same bytes are the same.
pub proof fn row_bytes_tell_rows_apart(a: Seq<Val>, b: Seq<Val>)
    requires
        a.len() <= usize::MAX,
        b.len() <= usize::MAX,
        all_storable(a, a.len()),
        all_storable(b, b.len()),
        row_bytes(a) == row_bytes(b),
    ensures
        a == b,
{
    row_round_trips(a);
    row_round_trips(b);
}

/// Values of the same bytes are the same.
pub proof fn value_bytes_tell_values_apart(a: Val, b: Val)
    requires
        storable(a),
        storable(b),
        value_bytes(a) == value_bytes(b),
    ensures
        a == b,
{
    value_round_trips(a, Seq::empty());
    value_round_trips(b, Seq::empty());
}

/// Every value in memory can be held there.
pub(crate) fn confirm_storable(v: &Value)
    ensures
        storable(v@),
    decreases v,
{
    match v {
        Value::String(s) => {
            let _n: usize = s.as_str().as_bytes().len();
        },
        Value::Name(s) => {
            let _n: usize = s.as_str().as_bytes().len();
        },
        Value::Compound(_, vs) => {
            let ghost all = vals(vs@);
            let mut n: usize = 0;
            while n < vs.len()
                invariant
                    n <= vs@.len(),
                    all_storable(all, n as nat),
                decreases vs@.len() - n,
            {
                assert(decreases_to!(vs => vs@));
                assert(decreases_to!(vs@ => vs@[n as int]));
                assert(all[n as int] == val_of(vs@[n as int]));
                confirm_storable(&vs[n]);
                n += 1;
            }
        },
        _ => {},
    }
}

/// Every row in memory can be held there.
pub(crate) fn confirm_row_storable(row: &Vec<Value>)
    ensures
        all_storable(vals(row@), row@.len()),
        row@.len() <= usize::MAX,
{
    let ghost all = vals(row@);
    let mut n: usize = 0;
    while n < row.len()
        invariant
            n <= row@.len(),
            all_storable(all, n as nat),
        decreases row@.len() - n,
    {
        assert(all[n as int] == val_of(row@[n as int]));
        confirm_storable(&row[n]);
        n += 1;
    }
}

} // verus!
