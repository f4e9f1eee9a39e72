//! Wire format of the two address records.
//!
//! `AddressList { repeated bytes addresses = 1; }` and
//! `SignedAddressList { bytes addresses = 1; bytes signature = 2; }`, laid out as
//! protocol buffers do: every field is a key byte, a base-128 length and the payload.
use vstd::prelude::*;

verus! {

/// Key byte of field 1 with the length-delimited wire type.
pub const FIELD_ONE: u8 = 0x0a;

/// Key byte of field 2 with the length-delimited wire type.
pub const FIELD_TWO: u8 = 0x12;

/// Longest length prefix that is read, in bytes.
pub const VARINT_MAX_BYTES: usize = 9;

pub open spec fn pow128(k: nat) -> nat
    decreases k,
{
    if k == 0 {
        1
    } else {
        128 * pow128((k - 1) as nat)
    }
}

/// Base-128 encoding of `n`, least significant group first.
pub open spec fn varint(n: nat) -> Seq<u8>
    decreases n,
{
    if n < 128 {
        seq![n as u8]
    } else {
        seq![((n % 128) + 128) as u8] + varint(n / 128)
    }
}

/// Reads a base-128 number of at most `k` bytes from the front of `s`:
/// its value and the number of bytes it takes.
pub open spec fn parse_varint(s: Seq<u8>, k: nat) -> Option<(nat, nat)>
    decreases k,
{
    if k == 0 || s.len() == 0 {
        None
    } else if s[0] < 128 {
        Some((s[0] as nat, 1))
    } else {
        match parse_varint(s.drop_first(), (k - 1) as nat) {
            Some((v, l)) => Some(((s[0] - 128) as nat + 128 * v, l + 1)),
            None => None,
        }
    }
}

/// One length-delimited field.
pub open spec fn field(key: u8, payload: Seq<u8>) -> Seq<u8> {
    seq![key] + varint(payload.len()) + payload
}

/// Serialised `AddressList`.
pub open spec fn address_list_bytes(xs: Seq<Seq<u8>>) -> Seq<u8>
    decreases xs.len(),
{
    if xs.len() == 0 {
        seq![]
    } else {
        address_list_bytes(xs.drop_last()) + field(FIELD_ONE, xs.last())
    }
}

/// Reads one length-delimited field with key byte `key` from the front of `s`:
/// its payload and the number of bytes it takes.
pub open spec fn parse_field(s: Seq<u8>, key: u8) -> Option<(Seq<u8>, nat)> {
    if s.len() == 0 || s[0] != key {
        None
    } else {
        match parse_varint(s.drop_first(), VARINT_MAX_BYTES as nat) {
            None => None,
            Some((n, l)) => if 1 + l + n > s.len() {
                None
            } else {
                Some((s.subrange((1 + l) as int, (1 + l + n) as int), 1 + l + n))
            },
        }
    }
}

/// Decoded `AddressList`, or `None` where `s` is not one.
pub open spec fn parse_address_list(s: Seq<u8>) -> Option<Seq<Seq<u8>>>
    decreases s.len(),
{
    if s.len() == 0 {
        Some(seq![])
    } else {
        match parse_field(s, FIELD_ONE) {
            None => None,
            Some((x, used)) => if used == 0 {
                None
            } else {
                match parse_address_list(s.subrange(used as int, s.len() as int)) {
                    None => None,
                    Some(rest) => Some(seq![x] + rest),
                }
            },
        }
    }
}

/// A field that protocol buffers leave out when its payload is empty.
pub open spec fn optional_field(key: u8, payload: Seq<u8>) -> Seq<u8> {
    if payload.len() == 0 {
        seq![]
    } else {
        field(key, payload)
    }
}

/// Serialised `SignedAddressList`.
pub open spec fn signed_bytes(addresses: Seq<u8>, signature: Seq<u8>) -> Seq<u8> {
    optional_field(FIELD_ONE, addresses) + optional_field(FIELD_TWO, signature)
}

/// Reads an optional field: an absent one is empty and takes no bytes.
pub open spec fn parse_optional(s: Seq<u8>, key: u8) -> Option<(Seq<u8>, nat)> {
    if s.len() > 0 && s[0] == key {
        parse_field(s, key)
    } else {
        Some((seq![], 0))
    }
}

/// Decoded `SignedAddressList` (address bytes, signature bytes), or `None`.
pub open spec fn parse_signed(s: Seq<u8>) -> Option<(Seq<u8>, Seq<u8>)> {
    match parse_optional(s, FIELD_ONE) {
        None => None,
        Some((a, p)) => match parse_optional(s.subrange(p as int, s.len() as int), FIELD_TWO) {
            None => None,
            Some((sig, q)) => if p + q == s.len() {
                Some((a, sig))
            } else {
                None
            },
        },
    }
}

pub open spec fn seqs(v: Seq<Vec<u8>>) -> Seq<Seq<u8>> {
    v.map_values(|x: Vec<u8>| x@)
}

proof fn lemma_pow128_le(j: nat)
    requires
        j <= 8,
    ensures
        pow128(j) <= pow128(8),
        pow128(8) == 72057594037927936,
    decreases 8 - j,
{
    reveal_with_fuel(pow128, 9);
    if j < 8 {
        lemma_pow128_le(j + 1);
    }
}

proof fn lemma_parse_varint_len(s: Seq<u8>, k: nat)
    ensures
        parse_varint(s, k) matches Some((v, l)) ==> 1 <= l <= s.len(),
    decreases k,
{
    if k > 0 && s.len() > 0 && s[0] >= 128 {
        lemma_parse_varint_len(s.drop_first(), (k - 1) as nat);
    }
}

/// A number below `128^k` is read back from its encoding, whatever follows it.
pub proof fn lemma_varint_round_trip(n: nat, s: Seq<u8>, k: nat)
    requires
        1 <= k,
        n < pow128(k),
    ensures
        parse_varint(varint(n) + s, k) == Some((n, varint(n).len())),
    decreases n,
{
    let e = varint(n) + s;
    if n < 128 {
        assert(e[0] == n as u8);
    } else {
        assert(pow128(k) == 128 * pow128((k - 1) as nat));
        assert(n / 128 < pow128((k - 1) as nat));
        if k == 1 {
            assert(pow128(0) == 1);
        }
        lemma_varint_round_trip(n / 128, s, (k - 1) as nat);
        assert(e.drop_first() =~= varint(n / 128) + s);
        assert(e[0] == ((n % 128) + 128) as u8);
    }
}


fn write_varint(buf: &mut Vec<u8>, n: u64)
    ensures
        final(buf)@ == old(buf)@ + varint(n as nat),
{
    let mut m: u64 = n;
    while m >= 128
        invariant
            old(buf)@ + varint(n as nat) == buf@ + varint(m as nat),
        decreases m,
    {
        let ghost before = buf@;
        buf.push((m % 128 + 128) as u8);
        assert(varint(m as nat) == seq![((m % 128) + 128) as u8] + varint((m / 128) as nat));
        assert(before + varint(m as nat) =~= buf@ + varint((m / 128) as nat));
        m = m / 128;
    }
    buf.push(m as u8);
    assert(varint(m as nat) =~= seq![m as u8]);
}

/// Reads a base-128 number of at most `VARINT_MAX_BYTES` bytes at `start`:
/// its value and the position after it.
fn read_varint(b: &Vec<u8>, start: usize) -> (r: Option<(u64, usize)>)
    requires
        start <= b@.len(),
    ensures
        match parse_varint(b@.subrange(start as int, b@.len() as int), VARINT_MAX_BYTES as nat) {
            None => r is None,
            Some((v, l)) => r matches Some((x, e)) && x == v && e == start + l,
        },
{
    let ghost whole = b@.subrange(start as int, b@.len() as int);
    assert(VARINT_MAX_BYTES as nat == 9);
    let mut i: usize = start;
    let mut j: usize = 0;
    let mut acc: u64 = 0;
    let mut mult: u64 = 1;
    proof {
        assert(b@.subrange(i as int, b@.len() as int) == whole);
        lemma_pow128_le(0);
    }
    loop
        invariant
            whole == b@.subrange(start as int, b@.len() as int),
            j <= 9,
            i == start + j,
            i <= b@.len(),
            mult == pow128(j as nat),
            acc < mult,
            parse_varint(whole, 9) == match parse_varint(
                b@.subrange(i as int, b@.len() as int),
                (9 - j) as nat,
            ) {
                Some((v, l)) => Some(((acc + mult * v) as nat, (j + l) as nat)),
                None => None,
            },
        decreases 9 - j,
    {
        let ghost rest = b@.subrange(i as int, b@.len() as int);
        if j == 9 || i == b.len() {
            assert(parse_varint(rest, (9 - j) as nat) is None);
            return None;
        }
        let d = b[i];
        if d < 128 {
            proof {
                assert(rest[0] == d);
                lemma_pow128_le(j as nat);
                assert(acc + mult * d < 128 * mult) by (nonlinear_arith)
                    requires acc < mult, d < 128;
                assert(128 * pow128(j as nat) <= 128 * pow128(8)) by (nonlinear_arith)
                    requires pow128(j as nat) <= pow128(8);
            }
            return Some((acc + mult * (d as u64), i + 1));
        }
        proof {
            lemma_pow128_le(j as nat);
            assert(rest.drop_first() =~= b@.subrange(i + 1, b@.len() as int));
            assert(acc + mult * (d - 128) < 128 * mult) by (nonlinear_arith)
                requires acc < mult, d - 128 < 128;
            let o = parse_varint(b@.subrange(i + 1, b@.len() as int), (9 - j - 1) as nat);
            assert(rest[0] == d);
            if let Some((v, l)) = o {
                let x: int = d - 128;
                assert(acc + mult * (x + 128 * v) == (acc + mult * x) + (mult * 128) * v)
                    by (nonlinear_arith);
            }
            assert(128 * pow128(j as nat) <= 128 * pow128(8)) by (nonlinear_arith)
                requires pow128(j as nat) <= pow128(8);
        }
        acc = acc + mult * ((d - 128) as u64);
        mult = mult * 128;
        i = i + 1;
        j = j + 1;
    }
}

pub fn copy_range(b: &Vec<u8>, from: usize, to: usize) -> (r: Vec<u8>)
    requires
        from <= to <= b@.len(),
    ensures
        r@ == b@.subrange(from as int, to as int),
{
    let mut r: Vec<u8> = Vec::new();
    let mut i: usize = from;
    while i < to
        invariant
            from <= i <= to <= b@.len(),
            r@ == b@.subrange(from as int, i as int),
        decreases to - i,
    {
        r.push(b[i]);
        assert(r@ =~= b@.subrange(from as int, i + 1));
        i = i + 1;
    }
    r
}

fn write_field(buf: &mut Vec<u8>, key: u8, payload: &Vec<u8>)
    ensures
        final(buf)@ == old(buf)@ + field(key, payload@),
{
    buf.push(key);
    write_varint(buf, payload.len() as u64);
    let mut i: usize = 0;
    let ghost mid = buf@;
    while i < payload.len()
        invariant
            i <= payload@.len(),
            buf@ == mid + payload@.subrange(0, i as int),
        decreases payload@.len() - i,
    {
        buf.push(payload[i]);
        assert(buf@ =~= mid + payload@.subrange(0, i + 1));
        i = i + 1;
    }
    assert(payload@.subrange(0, payload@.len() as int) =~= payload@);
    assert(old(buf)@ + field(key, payload@) =~= mid + payload@);
}

/// Reads a length-delimited field with key byte `key` at `start`: its payload and
/// the position after it.
fn read_field(b: &Vec<u8>, start: usize, key: u8) -> (r: Option<(Vec<u8>, usize)>)
    requires
        start <= b@.len(),
    ensures
        match parse_field(b@.subrange(start as int, b@.len() as int), key) {
            None => r is None,
            Some((x, used)) => r matches Some((y, e)) && y@ == x && e == start + used,
        },
{
    let ghost s = b@.subrange(start as int, b@.len() as int);
    if start == b.len() || b[start] != key {
        return None;
    }
    proof {
        assert(s.drop_first() =~= b@.subrange(start + 1, b@.len() as int));
    }
    proof {
        lemma_parse_varint_len(s.drop_first(), VARINT_MAX_BYTES as nat);
    }
    match read_varint(b, start + 1) {
        None => None,
        Some((n, q)) => {
            if n > (b.len() - q) as u64 {
                None
            } else {
                let e = q + n as usize;
                let x = copy_range(b, q, e);
                assert(x@ =~= s.subrange((q - start) as int, (e - start) as int));
                Some((x, e))
            }
        },
    }
}

/// Serialises an `AddressList`.
pub fn encode_address_list(xs: &Vec<Vec<u8>>) -> (r: Vec<u8>)
    ensures
        r@ == address_list_bytes(seqs(xs@)),
{
    let mut buf: Vec<u8> = Vec::new();
    let mut i: usize = 0;
    while i < xs.len()
        invariant
            i <= xs@.len(),
            buf@ == address_list_bytes(seqs(xs@).take(i as int)),
        decreases xs@.len() - i,
    {
        write_field(&mut buf, FIELD_ONE, &xs[i]);
        assert(seqs(xs@).take(i + 1).drop_last() =~= seqs(xs@).take(i as int));
        i = i + 1;
    }
    assert(seqs(xs@).take(xs@.len() as int) =~= seqs(xs@));
    buf
}

/// Decodes an `AddressList`; `None` where the bytes are not one.
pub fn decode_address_list(b: &Vec<u8>) -> (r: Option<Vec<Vec<u8>>>)
    ensures
        match parse_address_list(b@) {
            None => r is None,
            Some(xs) => r matches Some(v) && seqs(v@) == xs,
        },
{
    let mut acc: Vec<Vec<u8>> = Vec::new();
    let mut p: usize = 0;
    assert(b@.subrange(0, b@.len() as int) =~= b@);
    while p < b.len()
        invariant
            p <= b@.len(),
            parse_address_list(b@) == match parse_address_list(b@.subrange(p as int, b@.len() as int)) {
                None => None,
                Some(rest) => Some(seqs(acc@) + rest),
            },
        decreases b@.len() - p,
    {
        let ghost s = b@.subrange(p as int, b@.len() as int);
        match read_field(b, p, FIELD_ONE) {
            None => {
                return None;
            },
            Some((x, e)) => {
                proof {
                    assert(s.subrange((e - p) as int, s.len() as int) =~= b@.subrange(e as int, b@.len() as int));
                }
                let ghost before = acc@;
                acc.push(x);
                proof {
                    assert(seqs(acc@) =~= seqs(before) + seq![x@]);
                    let o = parse_address_list(b@.subrange(e as int, b@.len() as int));
                    if let Some(rest) = o {
                        assert(seqs(before) + (seq![x@] + rest) =~= seqs(acc@) + rest);
                    }
                }
                p = e;
            },
        }
    }
    assert(seqs(acc@) + seq![] =~= seqs(acc@));
    Some(acc)
}

/// Serialises a `SignedAddressList`.
pub fn encode_signed(addresses: &Vec<u8>, signature: &Vec<u8>) -> (r: Vec<u8>)
    ensures
        r@ == signed_bytes(addresses@, signature@),
{
    let mut buf: Vec<u8> = Vec::new();
    if addresses.len() > 0 {
        write_field(&mut buf, FIELD_ONE, addresses);
    }
    if signature.len() > 0 {
        write_field(&mut buf, FIELD_TWO, signature);
    }
    assert(buf@ =~= signed_bytes(addresses@, signature@));
    buf
}

fn read_optional(b: &Vec<u8>, start: usize, key: u8) -> (r: Option<(Vec<u8>, usize)>)
    requires
        start <= b@.len(),
    ensures
        match parse_optional(b@.subrange(start as int, b@.len() as int), key) {
            None => r is None,
            Some((x, used)) => r matches Some((y, e)) && y@ == x && e == start + used,
        },
{
    if start < b.len() && b[start] == key {
        read_field(b, start, key)
    } else {
        let r: Vec<u8> = Vec::new();
        assert(r@ =~= seq![]);
        Some((r, start))
    }
}

/// Decodes a `SignedAddressList` into (address bytes, signature bytes).
pub fn decode_signed(b: &Vec<u8>) -> (r: Option<(Vec<u8>, Vec<u8>)>)
    ensures
        match parse_signed(b@) {
            None => r is None,
            Some((a, sig)) => r matches Some((x, y)) && x@ == a && y@ == sig,
        },
{
    assert(b@.subrange(0, b@.len() as int) =~= b@);
    match read_optional(b, 0, FIELD_ONE) {
        None => None,
        Some((a, p)) => match read_optional(b, p, FIELD_TWO) {
            None => None,
            Some((sig, q)) => if q == b.len() {
                Some((a, sig))
            } else {
                None
            },
        },
    }
}

proof fn lemma_field_round_trip(key: u8, x: Seq<u8>, rest: Seq<u8>)
    requires
        x.len() < pow128(VARINT_MAX_BYTES as nat),
    ensures
        parse_field(field(key, x) + rest, key) == Some((x, field(key, x).len())),
        field(key, x).len() >= 1,
{
    let s = field(key, x) + rest;
    let n = x.len();
    lemma_varint_round_trip(n, x + rest, VARINT_MAX_BYTES as nat);
    assert(s.drop_first() =~= varint(n) + (x + rest));
    let l = varint(n).len();
    assert(s.subrange((1 + l) as int, (1 + l + n) as int) =~= x);
}

proof fn lemma_address_list_front(xs: Seq<Seq<u8>>)
    requires
        xs.len() > 0,
    ensures
        address_list_bytes(xs) == field(FIELD_ONE, xs[0]) + address_list_bytes(xs.drop_first()),
    decreases xs.len(),
{
    if xs.len() > 1 {
        lemma_address_list_front(xs.drop_last());
        assert(xs.drop_last().drop_first() =~= xs.drop_first().drop_last());
        assert(xs.drop_first().last() == xs.last());
        assert(address_list_bytes(xs.drop_first()) == address_list_bytes(xs.drop_first().drop_last())
            + field(FIELD_ONE, xs.drop_first().last()));
    } else {
        assert(xs.drop_last() =~= seq![]);
        assert(xs.drop_first() =~= seq![]);
    }
}

/// An address list decodes to the addresses it was encoded from, in their order.
pub proof fn lemma_address_list_round_trip(xs: Seq<Seq<u8>>)
    requires
        forall|i: int| 0 <= i < xs.len() ==> #[trigger] xs[i].len() < pow128(VARINT_MAX_BYTES as nat),
    ensures
        parse_address_list(address_list_bytes(xs)) == Some(xs),
    decreases xs.len(),
{
    let s = address_list_bytes(xs);
    if xs.len() == 0 {
    } else {
        lemma_address_list_front(xs);
        let rest = address_list_bytes(xs.drop_first());
        lemma_field_round_trip(FIELD_ONE, xs[0], rest);
        let used = field(FIELD_ONE, xs[0]).len();
        assert(s.subrange(used as int, s.len() as int) =~= rest);
        assert forall|i: int| 0 <= i < xs.drop_first().len() implies
            #[trigger] xs.drop_first()[i].len() < pow128(VARINT_MAX_BYTES as nat) by {
            assert(xs.drop_first()[i] == xs[i + 1]);
        }
        lemma_address_list_round_trip(xs.drop_first());
        assert(seq![xs[0]] + xs.drop_first() =~= xs);
    }
}

/// A signed record decodes to the address bytes and signature it was encoded from.
pub proof fn lemma_signed_round_trip(addresses: Seq<u8>, signature: Seq<u8>)
    requires
        addresses.len() < pow128(VARINT_MAX_BYTES as nat),
        signature.len() < pow128(VARINT_MAX_BYTES as nat),
    ensures
        parse_signed(signed_bytes(addresses, signature)) == Some((addresses, signature)),
{
    let s = signed_bytes(addresses, signature);
    let tail = optional_field(FIELD_TWO, signature);
    if addresses.len() > 0 {
        lemma_field_round_trip(FIELD_ONE, addresses, tail);
    } else {
        assert(s =~= tail);
    }
    let p = optional_field(FIELD_ONE, addresses).len();
    assert(s.subrange(p as int, s.len() as int) =~= tail);
    if signature.len() > 0 {
        lemma_field_round_trip(FIELD_TWO, signature, seq![]);
        assert(tail + seq![] =~= tail);
    } else {
        assert(tail =~= seq![]);
    }
}

} // verus!
