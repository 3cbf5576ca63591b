//! Mathematical model of AMQP field values and their wire form.
use vstd::prelude::*;
use vstd::utf8::valid_utf8;

verus! {

/// The abstract value a `FieldValue` stands for. Strings and names are
/// held as their UTF-8 bytes; floats as their IEEE-754 bit patterns.
pub enum Val {
    Bool(bool),
    I8(i8),
    U8(u8),
    I16(i16),
    U16(u16),
    I32(i32),
    U32(u32),
    I64(i64),
    F32(u32),
    F64(u64),
    Decimal(u8, i32),
    Str(Seq<u8>),
    Array(Seq<Val>),
    Stamp(u64),
    Table(Seq<(Seq<u8>, Val)>),
    Void,
    Bytes(Seq<u8>),
}

pub open spec fn be16(x: u16) -> Seq<u8> {
    seq![(x >> 8u16) as u8, x as u8]
}

pub open spec fn be32(x: u32) -> Seq<u8> {
    seq![(x >> 24u32) as u8, (x >> 16u32) as u8, (x >> 8u32) as u8, x as u8]
}

pub open spec fn be64(x: u64) -> Seq<u8> {
    seq![
        (x >> 56u64) as u8,
        (x >> 48u64) as u8,
        (x >> 40u64) as u8,
        (x >> 32u64) as u8,
        (x >> 24u64) as u8,
        (x >> 16u64) as u8,
        (x >> 8u64) as u8,
        x as u8,
    ]
}

pub open spec fn get16(b: Seq<u8>, i: int) -> u16 {
    ((b[i] as u16) << 8u16) | (b[i + 1] as u16)
}

pub open spec fn get32(b: Seq<u8>, i: int) -> u32 {
    ((b[i] as u32) << 24u32) | ((b[i + 1] as u32) << 16u32) | ((b[i + 2] as u32) << 8u32) | (b[i
        + 3] as u32)
}

pub open spec fn get64(b: Seq<u8>, i: int) -> u64 {
    ((get32(b, i) as u64) << 32u64) | (get32(b, i + 4) as u64)
}

/// The one-byte tag that announces a value's kind.
pub open spec fn tag_of(v: Val) -> u8 {
    match v {
        Val::Bool(_) => 0x74u8,
        Val::I8(_) => 0x62u8,
        Val::U8(_) => 0x42u8,
        Val::I16(_) => 0x73u8,
        Val::U16(_) => 0x75u8,
        Val::I32(_) => 0x49u8,
        Val::U32(_) => 0x69u8,
        Val::I64(_) => 0x6cu8,
        Val::F32(_) => 0x66u8,
        Val::F64(_) => 0x64u8,
        Val::Decimal(_, _) => 0x44u8,
        Val::Str(_) => 0x53u8,
        Val::Array(_) => 0x41u8,
        Val::Stamp(_) => 0x54u8,
        Val::Table(_) => 0x46u8,
        Val::Void => 0x56u8,
        Val::Bytes(_) => 0x78u8,
    }
}

/// Wire form of a value without its tag.
pub open spec fn enc(v: Val) -> Seq<u8>
    decreases v, 0int,
{
    match v {
        Val::Bool(x) => seq![if x { 1u8 } else { 0u8 }],
        Val::I8(x) => seq![x as u8],
        Val::U8(x) => seq![x],
        Val::I16(x) => be16(x as u16),
        Val::U16(x) => be16(x),
        Val::I32(x) => be32(x as u32),
        Val::U32(x) => be32(x),
        Val::I64(x) => be64(x as u64),
        Val::F32(x) => be32(x),
        Val::F64(x) => be64(x),
        Val::Decimal(s, x) => seq![s] + be32(x as u32),
        Val::Str(s) => be32(s.len() as u32) + s,
        Val::Array(items) => be32(enc_items(items).len() as u32) + enc_items(items),
        Val::Stamp(x) => be64(x),
        Val::Table(es) => be32(enc_entries(es).len() as u32) + enc_entries(es),
        Val::Void => Seq::empty(),
        Val::Bytes(s) => be32(s.len() as u32) + s,
    }
}

/// Tag followed by the value's wire form.
pub open spec fn enc_field(v: Val) -> Seq<u8>
    decreases v, 1int,
{
    seq![tag_of(v)] + enc(v)
}

/// Tagged values one after the other, as in a field array.
pub open spec fn enc_items(s: Seq<Val>) -> Seq<u8>
    decreases s, 0int,
{
    if s.len() == 0 {
        Seq::empty()
    } else {
        enc_field(s[0]) + enc_items(s.subrange(1, s.len() as int))
    }
}

/// Short-string name then tagged value, for each entry of a field table.
pub open spec fn enc_entries(es: Seq<(Seq<u8>, Val)>) -> Seq<u8>
    decreases es, 0int,
{
    if es.len() == 0 {
        Seq::empty()
    } else {
        seq![es[0].0.len() as u8] + es[0].0 + enc_field(es[0].1) + enc_entries(
            es.subrange(1, es.len() as int),
        )
    }
}

/// A name that a short string can carry.
pub open spec fn valid_name(k: Seq<u8>) -> bool {
    k.len() <= 255 && valid_utf8(k)
}

/// Every length prefix fits its field, strings are UTF-8, and table names
/// are unique short strings.
pub open spec fn wf(v: Val) -> bool
    decreases v, 0int,
{
    match v {
        Val::Str(s) => s.len() <= u32::MAX && valid_utf8(s),
        Val::Bytes(s) => s.len() <= u32::MAX,
        Val::Array(items) => wf_items(items) && enc_items(items).len() <= u32::MAX,
        Val::Table(es) => wf_entries(es) && enc_entries(es).len() <= u32::MAX,
        _ => true,
    }
}

pub open spec fn wf_items(s: Seq<Val>) -> bool
    decreases s, 0int,
{
    forall|i: int| 0 <= i < s.len() ==> wf(#[trigger] s[i])
}

/// No name occurs twice.
pub open spec fn distinct_names(es: Seq<(Seq<u8>, Val)>) -> bool {
    forall|i: int, j: int| 0 <= i < j < es.len() ==> #[trigger] es[i].0 != #[trigger] es[j].0
}

pub open spec fn wf_entries(es: Seq<(Seq<u8>, Val)>) -> bool
    decreases es, 0int,
{
    &&& forall|i: int| 0 <= i < es.len() ==> valid_name(#[trigger] es[i].0) && wf(es[i].1)
    &&& distinct_names(es)
}

/// Reads the value of kind `t` at the front of `b`; gives the value and the
/// number of bytes it took.
pub open spec fn dec(t: u8, b: Seq<u8>) -> Option<(Val, int)>
    decreases b.len(), 1int,
{
    if t == 0x74u8 {
        if b.len() < 1 { None } else { Some((Val::Bool(b[0] != 0), 1)) }
    } else if t == 0x62u8 {
        if b.len() < 1 { None } else { Some((Val::I8(b[0] as i8), 1)) }
    } else if t == 0x42u8 {
        if b.len() < 1 { None } else { Some((Val::U8(b[0]), 1)) }
    } else if t == 0x73u8 {
        if b.len() < 2 { None } else { Some((Val::I16(get16(b, 0) as i16), 2)) }
    } else if t == 0x75u8 {
        if b.len() < 2 { None } else { Some((Val::U16(get16(b, 0)), 2)) }
    } else if t == 0x49u8 {
        if b.len() < 4 { None } else { Some((Val::I32(get32(b, 0) as i32), 4)) }
    } else if t == 0x69u8 {
        if b.len() < 4 { None } else { Some((Val::U32(get32(b, 0)), 4)) }
    } else if t == 0x6cu8 {
        if b.len() < 8 { None } else { Some((Val::I64(get64(b, 0) as i64), 8)) }
    } else if t == 0x66u8 {
        if b.len() < 4 { None } else { Some((Val::F32(get32(b, 0)), 4)) }
    } else if t == 0x64u8 {
        if b.len() < 8 { None } else { Some((Val::F64(get64(b, 0)), 8)) }
    } else if t == 0x44u8 {
        if b.len() < 5 { None } else { Some((Val::Decimal(b[0], get32(b, 1) as i32), 5)) }
    } else if t == 0x54u8 {
        if b.len() < 8 { None } else { Some((Val::Stamp(get64(b, 0)), 8)) }
    } else if t == 0x56u8 {
        Some((Val::Void, 0))
    } else if t == 0x53u8 || t == 0x78u8 || t == 0x41u8 || t == 0x46u8 {
        if b.len() < 4 {
            None
        } else {
            let n = get32(b, 0) as int;
            if b.len() < 4 + n {
                None
            } else {
                let body = b.subrange(4, 4 + n);
                if t == 0x53u8 {
                    if valid_utf8(body) { Some((Val::Str(body), 4 + n)) } else { None }
                } else if t == 0x78u8 {
                    Some((Val::Bytes(body), 4 + n))
                } else if t == 0x41u8 {
                    match dec_items(body) {
                        Some(items) => Some((Val::Array(items), 4 + n)),
                        None => None,
                    }
                } else {
                    match dec_entries(body) {
                        Some(es) => if distinct_names(es) {
                            Some((Val::Table(es), 4 + n))
                        } else {
                            None
                        },
                        None => None,
                    }
                }
            }
        }
    } else {
        None
    }
}

/// Reads one tagged value at the front of `b`.
pub open spec fn dec_field(b: Seq<u8>) -> Option<(Val, int)>
    decreases b.len(), 2int,
{
    if b.len() == 0 {
        None
    } else {
        match dec(b[0], b.subrange(1, b.len() as int)) {
            Some((v, n)) => Some((v, n + 1)),
            None => None,
        }
    }
}

/// Reads tagged values until `b` is used up exactly.
pub open spec fn dec_items(b: Seq<u8>) -> Option<Seq<Val>>
    decreases b.len(), 3int,
{
    if b.len() == 0 {
        Some(Seq::empty())
    } else {
        match dec_field(b) {
            Some((v, n)) => if 0 < n <= b.len() {
                match dec_items(b.subrange(n, b.len() as int)) {
                    Some(rest) => Some(seq![v] + rest),
                    None => None,
                }
            } else {
                None
            },
            None => None,
        }
    }
}

/// Reads named entries until `b` is used up exactly.
pub open spec fn dec_entries(b: Seq<u8>) -> Option<Seq<(Seq<u8>, Val)>>
    decreases b.len(), 3int,
{
    if b.len() == 0 {
        Some(Seq::empty())
    } else {
        let k = b[0] as int;
        if b.len() < 1 + k {
            None
        } else {
            let name = b.subrange(1, 1 + k);
            if !valid_utf8(name) {
                None
            } else {
                match dec_field(b.subrange(1 + k, b.len() as int)) {
                    Some((v, n)) => if 0 < n && 1 + k + n <= b.len() {
                        match dec_entries(b.subrange(1 + k + n, b.len() as int)) {
                            Some(rest) => Some(seq![(name, v)] + rest),
                            None => None,
                        }
                    } else {
                        None
                    },
                    None => None,
                }
            }
        }
    }
}

pub proof fn lemma_get16(x: u16, rest: Seq<u8>)
    ensures
        get16(be16(x) + rest, 0) == x,
{
    let b = be16(x) + rest;
    assert(b[0] == (x >> 8u16) as u8 && b[1] == x as u8);
    assert((((((x >> 8u16) as u8) as u16) << 8u16) | ((x as u8) as u16)) == x) by (bit_vector);
}

pub proof fn lemma_get32(x: u32, pre: Seq<u8>, rest: Seq<u8>)
    ensures
        get32(pre + be32(x) + rest, pre.len() as int) == x,
{
    let b = pre + be32(x) + rest;
    let i = pre.len() as int;
    assert(b[i] == (x >> 24u32) as u8 && b[i + 1] == (x >> 16u32) as u8 && b[i + 2] == (x
        >> 8u32) as u8 && b[i + 3] == x as u8);
    assert((((((x >> 24u32) as u8) as u32) << 24u32) | ((((x >> 16u32) as u8) as u32) << 16u32)
        | ((((x >> 8u32) as u8) as u32) << 8u32) | ((x as u8) as u32)) == x) by (bit_vector);
}

pub proof fn lemma_get64(x: u64, rest: Seq<u8>)
    ensures
        get64(be64(x) + rest, 0) == x,
{
    let b = be64(x) + rest;
    let hi = (x >> 32u64) as u32;
    let lo = x as u32;
    assert(be64(x) =~= be32(hi) + be32(lo)) by {
        assert((x >> 56u64) as u8 == (hi >> 24u32) as u8) by (bit_vector)
            requires hi == (x >> 32u64) as u32;
        assert((x >> 48u64) as u8 == (hi >> 16u32) as u8) by (bit_vector)
            requires hi == (x >> 32u64) as u32;
        assert((x >> 40u64) as u8 == (hi >> 8u32) as u8) by (bit_vector)
            requires hi == (x >> 32u64) as u32;
        assert((x >> 32u64) as u8 == hi as u8) by (bit_vector)
            requires hi == (x >> 32u64) as u32;
        assert((x >> 24u64) as u8 == (lo >> 24u32) as u8) by (bit_vector)
            requires lo == x as u32;
        assert((x >> 16u64) as u8 == (lo >> 16u32) as u8) by (bit_vector)
            requires lo == x as u32;
        assert((x >> 8u64) as u8 == (lo >> 8u32) as u8) by (bit_vector)
            requires lo == x as u32;
        assert(x as u8 == lo as u8) by (bit_vector)
            requires lo == x as u32;
    }
    lemma_get32(hi, Seq::empty(), be32(lo) + rest);
    assert(Seq::<u8>::empty() + be32(hi) + (be32(lo) + rest) =~= b);
    lemma_get32(lo, be32(hi), rest);
    assert(be32(hi) + be32(lo) + rest =~= b);
    assert((((hi as u64) << 32u64) | (lo as u64)) == x) by (bit_vector)
        requires hi == (x >> 32u64) as u32 && lo == x as u32;
}

/// The fixed-size kinds read back as written.
proof fn lemma_round_trip_fixed(v: Val, rest: Seq<u8>)
    requires
        !(v is Str || v is Bytes || v is Array || v is Table),
    ensures
        dec(tag_of(v), enc(v) + rest) == Some((v, enc(v).len() as int)),
{
    let b = enc(v) + rest;
    match v {
        Val::I8(x) => {
            assert(((x as u8) as i8) == x) by (bit_vector);
        },
        Val::I16(x) => {
            lemma_get16(x as u16, rest);
            assert(((x as u16) as i16) == x) by (bit_vector);
        },
        Val::U16(x) => {
            lemma_get16(x, rest);
        },
        Val::I32(x) => {
            lemma_get32(x as u32, Seq::empty(), rest);
            assert(Seq::<u8>::empty() + be32(x as u32) =~= be32(x as u32));
            assert(((x as u32) as i32) == x) by (bit_vector);
        },
        Val::U32(x) => {
            lemma_get32(x, Seq::empty(), rest);
            assert(Seq::<u8>::empty() + be32(x) =~= be32(x));
        },
        Val::F32(x) => {
            lemma_get32(x, Seq::empty(), rest);
            assert(Seq::<u8>::empty() + be32(x) =~= be32(x));
        },
        Val::I64(x) => {
            lemma_get64(x as u64, rest);
            assert(((x as u64) as i64) == x) by (bit_vector);
        },
        Val::F64(x) => {
            lemma_get64(x, rest);
        },
        Val::Stamp(x) => {
            lemma_get64(x, rest);
        },
        Val::Decimal(sc, x) => {
            lemma_get32(x as u32, seq![sc], rest);
            assert(seq![sc] + be32(x as u32) + rest =~= b);
            assert(((x as u32) as i32) == x) by (bit_vector);
        },
        _ => {},
    }
}

proof fn lemma_round_trip_blob(v: Val, s: Seq<u8>, rest: Seq<u8>)
    requires
        wf(v),
        v == Val::Str(s) || v == Val::Bytes(s),
    ensures
        dec(tag_of(v), enc(v) + rest) == Some((v, enc(v).len() as int)),
{
    let b = enc(v) + rest;
    lemma_get32(s.len() as u32, Seq::empty(), s + rest);
    assert(Seq::<u8>::empty() + be32(s.len() as u32) + (s + rest) =~= b);
    assert(b.subrange(4, 4 + s.len() as int) =~= s);
}

proof fn lemma_round_trip_array(items: Seq<Val>, rest: Seq<u8>)
    requires
        wf(Val::Array(items)),
    ensures
        dec(0x41u8, enc(Val::Array(items)) + rest) == Some(
            (Val::Array(items), enc(Val::Array(items)).len() as int),
        ),
    decreases items, 2int,
{
    let e = enc_items(items);
    let b = enc(Val::Array(items)) + rest;
    lemma_get32(e.len() as u32, Seq::empty(), e + rest);
    assert(Seq::<u8>::empty() + be32(e.len() as u32) + (e + rest) =~= b);
    assert(b.subrange(4, 4 + e.len() as int) =~= e);
    lemma_round_trip_items(items);
}

proof fn lemma_round_trip_table(es: Seq<(Seq<u8>, Val)>, rest: Seq<u8>)
    requires
        wf(Val::Table(es)),
    ensures
        dec(0x46u8, enc(Val::Table(es)) + rest) == Some(
            (Val::Table(es), enc(Val::Table(es)).len() as int),
        ),
    decreases es, 2int,
{
    let e = enc_entries(es);
    let b = enc(Val::Table(es)) + rest;
    lemma_get32(e.len() as u32, Seq::empty(), e + rest);
    assert(Seq::<u8>::empty() + be32(e.len() as u32) + (e + rest) =~= b);
    assert(b.subrange(4, 4 + e.len() as int) =~= e);
    lemma_round_trip_entries(es);
}

/// Reading back the wire form of a well-formed value gives the same value
/// and uses exactly its bytes, whatever follows it.
#[verifier::rlimit(100)]
#[verifier::spinoff_prover]
pub proof fn lemma_round_trip(v: Val, rest: Seq<u8>)
    requires
        wf(v),
    ensures
        dec(tag_of(v), enc(v) + rest) == Some((v, enc(v).len() as int)),
        dec_field(enc_field(v) + rest) == Some((v, enc_field(v).len() as int)),
    decreases v, 1int,
{
    let b = enc(v) + rest;
    let want = Some((v, enc(v).len() as int));
    match v {
        Val::Str(s) => {
            lemma_round_trip_blob(v, s, rest);
        },
        Val::Bytes(s) => {
            lemma_round_trip_blob(v, s, rest);
        },
        Val::Array(items) => {
            lemma_round_trip_array(items, rest);
        },
        Val::Table(es) => {
            lemma_round_trip_table(es, rest);
        },
        _ => {
            lemma_round_trip_fixed(v, rest);
        },
    }
    let f = enc_field(v) + rest;
    assert(f.subrange(1, f.len() as int) =~= b);
}

/// Tagged values written one after the other read back as the same values.
pub proof fn lemma_round_trip_items(s: Seq<Val>)
    requires
        wf_items(s),
    ensures
        dec_items(enc_items(s)) == Some(s),
    decreases s, 0int,
{
    if s.len() > 0 {
        let tail = s.subrange(1, s.len() as int);
        let b = enc_items(s);
        assert(wf(s[0]));
        assert(wf_items(tail)) by {
            assert forall|i: int| 0 <= i < tail.len() implies wf(#[trigger] tail[i]) by {
                assert(tail[i] == s[i + 1]);
            }
        }
        lemma_round_trip(s[0], enc_items(tail));
        let n = enc_field(s[0]).len() as int;
        assert(b.subrange(n, b.len() as int) =~= enc_items(tail));
        lemma_round_trip_items(tail);
        assert(seq![s[0]] + tail =~= s);
    } else {
        assert(s =~= Seq::<Val>::empty());
    }
}

/// Named entries written one after the other read back as the same entries.
pub proof fn lemma_round_trip_entries(es: Seq<(Seq<u8>, Val)>)
    requires
        wf_entries(es),
    ensures
        dec_entries(enc_entries(es)) == Some(es),
    decreases es, 0int,
{
    if es.len() > 0 {
        let tail = es.subrange(1, es.len() as int);
        let k = es[0].0;
        let v = es[0].1;
        let b = enc_entries(es);
        let kl = k.len() as int;
        assert(b[0] as int == kl);
        assert(b.subrange(1, 1 + kl) =~= k);
        assert(valid_name(k) && wf(v));
        assert(wf_entries(tail)) by {
            assert forall|i: int| 0 <= i < tail.len() implies valid_name(#[trigger] tail[i].0)
                && wf(tail[i].1) by {
                assert(tail[i] == es[i + 1]);
            }
            assert forall|i: int, j: int| 0 <= i < j < tail.len() implies #[trigger] tail[i].0
                != #[trigger] tail[j].0 by {
                assert(tail[i] == es[i + 1] && tail[j] == es[j + 1]);
            }
            assert(distinct_names(tail));
        }
        lemma_round_trip(v, enc_entries(tail));
        assert(b.subrange(1 + kl, b.len() as int) =~= enc_field(v) + enc_entries(tail));
        let n = enc_field(v).len() as int;
        assert(b.subrange(1 + kl + n, b.len() as int) =~= enc_entries(tail));
        lemma_round_trip_entries(tail);
        assert(seq![(k, v)] + tail =~= es);
    } else {
        assert(es =~= Seq::<(Seq<u8>, Val)>::empty());
    }
}

/// A value read by `dec` is well-formed, carries the tag it was read with,
/// and its wire form is as long as the bytes it took.
pub proof fn lemma_dec_sound(t: u8, b: Seq<u8>)
    requires
        dec(t, b) is Some,
    ensures
        ({
            let (v, n) = dec(t, b)->0;
            wf(v) && tag_of(v) == t && enc(v).len() == n && 0 <= n <= b.len()
        }),
    decreases b.len(), 1int,
{
    let (v, n) = dec(t, b)->0;
    if t == 0x53u8 || t == 0x78u8 || t == 0x41u8 || t == 0x46u8 {
        let k = get32(b, 0) as int;
        let body = b.subrange(4, 4 + k);
        if t == 0x41u8 {
            lemma_dec_items_sound(body);
        } else if t == 0x46u8 {
            lemma_dec_entries_sound(body);
        }
    }
}

pub proof fn lemma_dec_field_sound(b: Seq<u8>)
    requires
        dec_field(b) is Some,
    ensures
        ({
            let (v, n) = dec_field(b)->0;
            wf(v) && enc_field(v).len() == n && 1 <= n <= b.len()
        }),
    decreases b.len(), 2int,
{
    lemma_dec_sound(b[0], b.subrange(1, b.len() as int));
}

pub proof fn lemma_dec_items_sound(b: Seq<u8>)
    requires
        dec_items(b) is Some,
    ensures
        wf_items(dec_items(b)->0),
        enc_items(dec_items(b)->0).len() == b.len(),
    decreases b.len(), 3int,
{
    let s = dec_items(b)->0;
    if b.len() == 0 {
        assert(s =~= Seq::<Val>::empty());
    } else {
        let (v, n) = dec_field(b)->0;
        lemma_dec_field_sound(b);
        let rb = b.subrange(n, b.len() as int);
        lemma_dec_items_sound(rb);
        let r = dec_items(rb)->0;
        assert(s == seq![v] + r);
        assert(s[0] == v);
        assert(s.subrange(1, s.len() as int) =~= r);
        assert forall|i: int| 0 <= i < s.len() implies wf(#[trigger] s[i]) by {
            if i > 0 {
                assert(s[i] == r[i - 1]);
            }
        }
    }
}

pub proof fn lemma_dec_entries_sound(b: Seq<u8>)
    requires
        dec_entries(b) is Some,
    ensures
        forall|i: int|
            0 <= i < dec_entries(b)->0.len() ==> valid_name(#[trigger] dec_entries(b)->0[i].0)
                && wf(dec_entries(b)->0[i].1),
        enc_entries(dec_entries(b)->0).len() == b.len(),
    decreases b.len(), 3int,
{
    let es = dec_entries(b)->0;
    if b.len() == 0 {
        assert(es =~= Seq::<(Seq<u8>, Val)>::empty());
    } else {
        let k = b[0] as int;
        let name = b.subrange(1, 1 + k);
        let fb = b.subrange(1 + k, b.len() as int);
        let (v, n) = dec_field(fb)->0;
        lemma_dec_field_sound(fb);
        let rb = b.subrange(1 + k + n, b.len() as int);
        lemma_dec_entries_sound(rb);
        let r = dec_entries(rb)->0;
        assert(es == seq![(name, v)] + r);
        assert(es[0] == (name, v));
        assert(es.subrange(1, es.len() as int) =~= r);
        assert forall|i: int| 0 <= i < es.len() implies valid_name(#[trigger] es[i].0) && wf(
            es[i].1,
        ) by {
            if i > 0 {
                assert(es[i] == r[i - 1]);
            }
        }
    }
}

} // verus!
