//! MIDI variable-length quantities: a number written in base 128, most
//! significant digit first, seven bits per byte, with the top bit of every
//! byte but the last set as a continuation flag.
use vstd::prelude::*;

verus! {

/// The base-128 digits of `v`, most significant first, each with the
/// continuation bit (0x80) set.
pub open spec fn vlq_flagged(v: nat) -> Seq<u8>
    decreases v,
{
    if v < 128 {
        seq![(v + 128) as u8]
    } else {
        vlq_flagged(v / 128).push((v % 128 + 128) as u8)
    }
}

/// The variable-length quantity that encodes `v`: its base-128 digits, most
/// significant first, the continuation bit set on all but the last byte.
/// Zero is the single byte 0x00.
pub open spec fn vlq_bytes(v: nat) -> Seq<u8> {
    if v < 128 {
        seq![v as u8]
    } else {
        vlq_flagged(v / 128).push((v % 128) as u8)
    }
}

/// The number that a run of bytes spells when each byte contributes its low
/// seven bits as one base-128 digit, most significant first.
pub open spec fn vlq_value(s: Seq<u8>) -> nat
    decreases s.len(),
{
    if s.len() == 0 {
        0
    } else {
        vlq_value(s.drop_last()) * 128 + (s.last() % 128) as nat
    }
}

/// The index of the first byte of `s` whose continuation bit is clear.
pub open spec fn vlq_end(s: Seq<u8>) -> Option<nat>
    decreases s.len(),
{
    if s.len() == 0 {
        None
    } else if s[0] < 128 {
        Some(0)
    } else {
        match vlq_end(s.drop_first()) {
            Some(k) => Some(k + 1),
            None => None,
        }
    }
}

/// What a reader of a variable-length quantity at the front of `s` finds:
/// the value and the number of bytes it took, or `None` when no byte ends it.
pub open spec fn vlq_read(s: Seq<u8>) -> Option<(nat, nat)> {
    match vlq_end(s) {
        Some(k) => Some((vlq_value(s.take(k as int + 1)), k + 1)),
        None => None,
    }
}

proof fn lemma_vlq_value_push(s: Seq<u8>, b: u8)
    ensures
        vlq_value(s.push(b)) == vlq_value(s) * 128 + (b % 128) as nat,
{
    assert(s.push(b).drop_last() =~= s);
}

proof fn lemma_vlq_flagged_shape(v: nat)
    ensures
        vlq_flagged(v).len() >= 1,
        forall|i: int| 0 <= i < vlq_flagged(v).len() ==> #[trigger] vlq_flagged(v)[i] >= 128,
        vlq_value(vlq_flagged(v)) == v,
        v < 128 ==> vlq_flagged(v).len() == 1,
        v < 16384 ==> vlq_flagged(v).len() <= 2,
        v < 2097152 ==> vlq_flagged(v).len() <= 3,
        v < 268435456 ==> vlq_flagged(v).len() <= 4,
    decreases v,
{
    if v < 128 {
        lemma_vlq_value_push(Seq::<u8>::empty(), (v + 128) as u8);
        assert(seq![(v + 128) as u8] =~= Seq::<u8>::empty().push((v + 128) as u8));
    } else {
        lemma_vlq_flagged_shape(v / 128);
        lemma_vlq_value_push(vlq_flagged(v / 128), (v % 128 + 128) as u8);
    }
}

/// Shape of an encoded quantity: at least one byte, the continuation bit on
/// every byte but the last, the digits spelling `v`; a 32-bit number takes at
/// most five bytes.
pub proof fn lemma_vlq_bytes_shape(v: nat)
    ensures
        vlq_bytes(v).len() >= 1,
        forall|i: int| 0 <= i < vlq_bytes(v).len() - 1 ==> #[trigger] vlq_bytes(v)[i] >= 128,
        vlq_bytes(v).last() < 128,
        vlq_value(vlq_bytes(v)) == v,
        v <= u32::MAX ==> vlq_bytes(v).len() <= 5,
{
    if v < 128 {
        lemma_vlq_value_push(Seq::<u8>::empty(), v as u8);
        assert(seq![v as u8] =~= Seq::<u8>::empty().push(v as u8));
    } else {
        lemma_vlq_flagged_shape(v / 128);
        lemma_vlq_value_push(vlq_flagged(v / 128), (v % 128) as u8);
        let s = vlq_bytes(v);
        assert forall|i: int| 0 <= i < s.len() - 1 implies #[trigger] s[i] >= 128 by {
            assert(s[i] == vlq_flagged(v / 128)[i]);
        }
    }
}

proof fn lemma_vlq_end_at(s: Seq<u8>, n: nat)
    requires
        n < s.len(),
        forall|i: int| 0 <= i < n ==> #[trigger] s[i] >= 128,
        s[n as int] < 128,
    ensures
        vlq_end(s) == Some(n),
    decreases n,
{
    if n > 0 {
        let t = s.drop_first();
        assert forall|i: int| 0 <= i < n - 1 implies #[trigger] t[i] >= 128 by {
            assert(t[i] == s[i + 1]);
        }
        lemma_vlq_end_at(t, (n - 1) as nat);
    }
}

/// A reader finds back what was written: whatever follows an encoded
/// quantity, reading at its start gives the value and stops at its last byte.
pub proof fn lemma_vlq_read_roundtrip(v: nat, rest: Seq<u8>)
    ensures
        vlq_read(vlq_bytes(v) + rest) == Some((v, vlq_bytes(v).len())),
{
    lemma_vlq_bytes_shape(v);
    let e = vlq_bytes(v);
    let s = e + rest;
    let n = (e.len() - 1) as nat;
    assert forall|i: int| 0 <= i < n implies #[trigger] s[i] >= 128 by {
        assert(s[i] == e[i]);
    }
    lemma_vlq_end_at(s, n);
    assert(s.take(n as int + 1) =~= e);
}

/// Append to `data` the variable-length quantity that encodes `value`.
pub fn write_variable_length(data: &mut Vec<u8>, value: u32)
    ensures
        final(data)@ == old(data)@ + vlq_bytes(value as nat),
{
    if value == 0 {
        data.push(0x00);
        return;
    }
    let ghost v = value as nat;
    let mut rest: u32 = value;
    let mut bytes: Vec<u8> = Vec::new();
    while rest > 0
        invariant
            v > 0,
            vlq_bytes(v) == (if rest == 0 {
                Seq::<u8>::empty()
            } else if bytes.len() == 0 {
                vlq_bytes(rest as nat)
            } else {
                vlq_flagged(rest as nat)
            }) + bytes@.reverse(),
            rest == 0 ==> bytes.len() > 0,
        decreases rest,
    {
        let low: u8 = (rest & 0x7F) as u8;
        let next: u32 = rest >> 7;
        assert((rest & 0x7F) == rest % 128) by (bit_vector);
        assert(rest >> 7 == rest / 128) by (bit_vector);
        let ghost old_bytes = bytes@;
        let byte: u8 = if bytes.len() > 0 {
            assert(low < 128 ==> (low | 0x80) == low + 128) by (bit_vector);
            low | 0x80
        } else {
            low
        };
        bytes.push(byte);
        assert(bytes@.reverse() =~= seq![byte] + old_bytes.reverse());
        rest = next;
    }
    let n = bytes.len();
    let ghost d0 = data@;
    let mut i = n;
    while i > 0
        invariant
            i <= n,
            n == bytes.len(),
            data@ == d0 + bytes@.reverse().take(n - i),
        decreases i,
    {
        i = i - 1;
        data.push(bytes[i]);
        assert(bytes@.reverse().take(n - i) =~= bytes@.reverse().take(n - i - 1).push(bytes@[i as int]));
    }
    assert(bytes@.reverse().take(n as int) =~= bytes@.reverse());
}

} // verus!
