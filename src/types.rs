//! AMQP field types, their wire form and the codec between the two.
use vstd::prelude::*;
use vstd::utf8::{encode_utf8, valid_utf8};
use crate::error::AmqpError;
use crate::model::{Val, be16, be32, be64, get16, get32, get64, dec, dec_field, dec_items, dec_entries, lemma_dec_items_sound, lemma_dec_entries_sound, lemma_dec_field_sound, enc, enc_field, enc_items, enc_entries, wf, wf_items, wf_entries, valid_name, distinct_names};

verus! {

/// A short string: at most 255 bytes of UTF-8.
#[derive(PartialEq, Eq, Hash, Debug)]
pub struct ShortStr(u8, String);

impl View for ShortStr {
    type V = Seq<u8>;

    /// The string's UTF-8 bytes.
    closed spec fn view(&self) -> Seq<u8> {
        encode_utf8(self.1@)
    }
}

impl ShortStr {
    #[verifier::type_invariant]
    spec fn inv(self) -> bool {
        self.0 as int == encode_utf8(self.1@).len()
    }

    /// The characters held.
    pub closed spec fn chars(&self) -> Seq<char> {
        self.1@
    }

    /// Takes `s` when its UTF-8 form has at most 255 bytes.
    pub fn try_from(s: String) -> (r: Result<ShortStr, AmqpError>)
        ensures
            r is Ok <==> encode_utf8(s@).len() <= 255,
            r matches Ok(v) ==> v@ == encode_utf8(s@) && v.chars() == s@,
            r matches Err(e) ==> e == AmqpError::ShortStringOverflow,
    {
        let n = s.as_str().as_bytes().len();
        if n > 255 {
            Err(AmqpError::ShortStringOverflow)
        } else {
            Ok(ShortStr(n as u8, s))
        }
    }

    /// The empty short string.
    pub fn empty() -> (r: ShortStr)
        ensures
            r@ == Seq::<u8>::empty(),
            r.chars() == Seq::<char>::empty(),
    {
        let s = String::new();
        assert(encode_utf8(s@) =~= Seq::<u8>::empty());
        ShortStr(0, s)
    }

    /// Byte length, as the wire prefix carries it.
    pub fn len(&self) -> (r: u8)
        ensures
            r as int == self@.len(),
    {
        proof { use_type_invariant(self); }
        self.0
    }

    pub fn as_str(&self) -> (r: &str)
        ensures
            r@ == self.chars(),
    {
        self.1.as_str()
    }

    pub fn into_string(self) -> (r: String)
        ensures
            r@ == self.chars(),
    {
        self.1
    }
}

/// A long string: UTF-8 whose byte length fits 32 bits.
#[derive(PartialEq, Eq, Debug)]
pub struct LongStr(u32, String);

impl View for LongStr {
    type V = Seq<u8>;

    closed spec fn view(&self) -> Seq<u8> {
        encode_utf8(self.1@)
    }
}

impl LongStr {
    #[verifier::type_invariant]
    spec fn inv(self) -> bool {
        self.0 as int == encode_utf8(self.1@).len()
    }

    pub closed spec fn chars(&self) -> Seq<char> {
        self.1@
    }

    /// Takes `s` when its UTF-8 form has at most `u32::MAX` bytes.
    pub fn try_from(s: String) -> (r: Result<LongStr, AmqpError>)
        ensures
            r is Ok <==> encode_utf8(s@).len() <= u32::MAX,
            r matches Ok(v) ==> v@ == encode_utf8(s@) && v.chars() == s@,
            r matches Err(e) ==> e == AmqpError::TableLengthOverflow,
    {
        let n = s.as_str().as_bytes().len();
        if n as u64 > 0xffff_ffffu64 {
            Err(AmqpError::TableLengthOverflow)
        } else {
            Ok(LongStr(n as u32, s))
        }
    }

    pub fn empty() -> (r: LongStr)
        ensures
            r@ == Seq::<u8>::empty(),
            r.chars() == Seq::<char>::empty(),
    {
        let s = String::new();
        assert(encode_utf8(s@) =~= Seq::<u8>::empty());
        LongStr(0, s)
    }

    pub fn len(&self) -> (r: u32)
        ensures
            r as int == self@.len(),
    {
        proof { use_type_invariant(self); }
        self.0
    }

    pub fn as_str(&self) -> (r: &str)
        ensures
            r@ == self.chars(),
    {
        self.1.as_str()
    }

    pub fn into_string(self) -> (r: String)
        ensures
            r@ == self.chars(),
    {
        self.1
    }
}

/// A decimal: a scale and a signed unscaled value.
#[derive(PartialEq, Eq, Debug, Clone, Copy)]
pub struct DecimalValue(u8, i32);

impl View for DecimalValue {
    type V = (u8, i32);

    closed spec fn view(&self) -> (u8, i32) {
        (self.0, self.1)
    }
}

impl DecimalValue {
    pub fn new(scale: u8, value: i32) -> (r: DecimalValue)
        ensures
            r@ == (scale, value),
    {
        DecimalValue(scale, value)
    }

    pub fn scale(&self) -> (r: u8)
        ensures
            r == self@.0,
    {
        self.0
    }

    pub fn value(&self) -> (r: i32)
        ensures
            r == self@.1,
    {
        self.1
    }
}

/// Raw bytes whose length fits 32 bits.
#[derive(PartialEq, Eq, Debug)]
pub struct ByteArray(u32, Vec<u8>);

impl View for ByteArray {
    type V = Seq<u8>;

    closed spec fn view(&self) -> Seq<u8> {
        self.1@
    }
}

impl ByteArray {
    #[verifier::type_invariant]
    spec fn inv(self) -> bool {
        self.0 as int == self.1@.len()
    }

    /// Takes `bytes` when there are at most `u32::MAX` of them.
    pub fn try_from(bytes: Vec<u8>) -> (r: Result<ByteArray, AmqpError>)
        ensures
            r is Ok <==> bytes@.len() <= u32::MAX,
            r matches Ok(v) ==> v@ == bytes@,
            r matches Err(e) ==> e == AmqpError::TableLengthOverflow,
    {
        let n = bytes.len();
        if n as u64 > 0xffff_ffffu64 {
            Err(AmqpError::TableLengthOverflow)
        } else {
            Ok(ByteArray(n as u32, bytes))
        }
    }

    pub fn len(&self) -> (r: u32)
        ensures
            r as int == self@.len(),
    {
        proof { use_type_invariant(self); }
        self.0
    }

    pub fn as_slice(&self) -> (r: &[u8])
        ensures
            r@ == self@,
    {
        self.1.as_slice()
    }

    pub fn into_vec(self) -> (r: Vec<u8>)
        ensures
            r@ == self@,
    {
        self.1
    }
}

impl Clone for ShortStr {
    fn clone(&self) -> (r: ShortStr)
        ensures
            r@ == self@ && r.chars() == self.chars(),
    {
        proof { use_type_invariant(self); }
        ShortStr(self.0, self.1.clone())
    }
}

impl Clone for LongStr {
    fn clone(&self) -> (r: LongStr)
        ensures
            r@ == self@ && r.chars() == self.chars(),
    {
        proof { use_type_invariant(self); }
        LongStr(self.0, self.1.clone())
    }
}

/// A tagged AMQP value, with RabbitMQ's tag set. `f` and `d` carry the
/// IEEE-754 bit patterns of a single and a double.
#[allow(non_camel_case_types)]
#[derive(PartialEq, Debug)]
pub enum FieldValue {
    t(bool),
    b(i8),
    B(u8),
    s(i16),
    u(u16),
    I(i32),
    i(u32),
    l(i64),
    f(u32),
    d(u64),
    D(DecimalValue),
    S(LongStr),
    A(FieldArray),
    T(u64),
    F(FieldTable),
    V,
    x(ByteArray),
}

/// A sequence of tagged values; the prefix is their total byte length.
#[derive(PartialEq, Debug)]
pub struct FieldArray(u32, Vec<FieldValue>);

/// Named values with unique names, kept in insertion order.
#[derive(PartialEq, Debug)]
pub struct FieldTable(Vec<(ShortStr, FieldValue)>);

/// The abstract value a `FieldValue` stands for.
pub open spec fn model(v: FieldValue) -> Val
    decreases v, 0int,
{
    match v {
        FieldValue::t(x) => Val::Bool(x),
        FieldValue::b(x) => Val::I8(x),
        FieldValue::B(x) => Val::U8(x),
        FieldValue::s(x) => Val::I16(x),
        FieldValue::u(x) => Val::U16(x),
        FieldValue::I(x) => Val::I32(x),
        FieldValue::i(x) => Val::U32(x),
        FieldValue::l(x) => Val::I64(x),
        FieldValue::f(x) => Val::F32(x),
        FieldValue::d(x) => Val::F64(x),
        FieldValue::D(x) => Val::Decimal(x@.0, x@.1),
        FieldValue::S(x) => Val::Str(x@),
        FieldValue::A(x) => Val::Array(x@),
        FieldValue::T(x) => Val::Stamp(x),
        FieldValue::F(x) => Val::Table(x@),
        FieldValue::V => Val::Void,
        FieldValue::x(x) => Val::Bytes(x@),
    }
}

/// The abstract values of a sequence of `FieldValue`s.
pub open spec fn models(s: Seq<FieldValue>) -> Seq<Val>
    decreases s, 0int,
{
    if s.len() == 0 {
        Seq::empty()
    } else {
        seq![model(s[0])] + models(s.subrange(1, s.len() as int))
    }
}

/// The abstract entries of a table: name bytes and value.
pub open spec fn entry_models(s: Seq<(ShortStr, FieldValue)>) -> Seq<(Seq<u8>, Val)>
    decreases s, 0int,
{
    if s.len() == 0 {
        Seq::empty()
    } else {
        seq![(s[0].0@, model(s[0].1))] + entry_models(s.subrange(1, s.len() as int))
    }
}

impl View for FieldValue {
    type V = Val;

    open spec fn view(&self) -> Val {
        model(*self)
    }
}

impl View for FieldArray {
    type V = Seq<Val>;

    closed spec fn view(&self) -> Seq<Val>
        decreases self, 0int,
    {
        models(self.1@)
    }
}

impl View for FieldTable {
    type V = Seq<(Seq<u8>, Val)>;

    closed spec fn view(&self) -> Seq<(Seq<u8>, Val)>
        decreases self, 0int,
    {
        entry_models(self.0@)
    }
}

proof fn lemma_models(s: Seq<FieldValue>)
    ensures
        models(s).len() == s.len(),
        forall|i: int| 0 <= i < s.len() ==> #[trigger] models(s)[i] == model(s[i]),
    decreases s.len(),
{
    if s.len() > 0 {
        let tail = s.subrange(1, s.len() as int);
        lemma_models(tail);
        assert forall|i: int| 0 <= i < s.len() implies #[trigger] models(s)[i] == model(s[i]) by {
            if i > 0 {
                assert(tail[i - 1] == s[i]);
            }
        }
    }
}

proof fn lemma_entry_models(s: Seq<(ShortStr, FieldValue)>)
    ensures
        entry_models(s).len() == s.len(),
        forall|i: int|
            0 <= i < s.len() ==> #[trigger] entry_models(s)[i] == (s[i].0@, model(s[i].1)),
    decreases s.len(),
{
    if s.len() > 0 {
        let tail = s.subrange(1, s.len() as int);
        lemma_entry_models(tail);
        assert forall|i: int| 0 <= i < s.len() implies #[trigger] entry_models(s)[i] == (
        s[i].0@,
        model(s[i].1),
        ) by {
            if i > 0 {
                assert(tail[i - 1] == s[i]);
            }
        }
    }
}

proof fn lemma_enc_items_concat(a: Seq<Val>, b: Seq<Val>)
    ensures
        enc_items(a + b) == enc_items(a) + enc_items(b),
    decreases a.len(),
{
    if a.len() == 0 {
        assert(a + b =~= b);
        assert(enc_items(a) =~= Seq::<u8>::empty());
        assert(enc_items(a) + enc_items(b) =~= enc_items(b));
    } else {
        let ta = a.subrange(1, a.len() as int);
        assert((a + b).subrange(1, (a + b).len() as int) =~= ta + b);
        lemma_enc_items_concat(ta, b);
        assert((a + b)[0] == a[0]);
        assert(enc_items(a + b) =~= enc_items(a) + enc_items(b));
    }
}

proof fn lemma_enc_entries_concat(a: Seq<(Seq<u8>, Val)>, b: Seq<(Seq<u8>, Val)>)
    ensures
        enc_entries(a + b) == enc_entries(a) + enc_entries(b),
    decreases a.len(),
{
    if a.len() == 0 {
        assert(a + b =~= b);
        assert(enc_entries(a) =~= Seq::<u8>::empty());
        assert(enc_entries(a) + enc_entries(b) =~= enc_entries(b));
    } else {
        let ta = a.subrange(1, a.len() as int);
        assert((a + b).subrange(1, (a + b).len() as int) =~= ta + b);
        lemma_enc_entries_concat(ta, b);
        assert((a + b)[0] == a[0]);
        assert(enc_entries(a + b) =~= enc_entries(a) + enc_entries(b));
    }
}

/// Wire length of one table entry: name prefix, name, tag, value.
pub open spec fn entry_len(e: (Seq<u8>, Val)) -> int {
    1 + e.0.len() + 1 + enc(e.1).len() as int
}

proof fn lemma_enc_entries_one(e: (Seq<u8>, Val))
    ensures
        enc_entries(seq![e]).len() == entry_len(e),
{
    let one = seq![e];
    assert(one.subrange(1, 1) =~= Seq::<(Seq<u8>, Val)>::empty());
    assert(enc_entries(Seq::<(Seq<u8>, Val)>::empty()) == Seq::<u8>::empty());
    assert(one[0] == e);
    assert(enc_field(e.1).len() == 1 + enc(e.1).len());
    assert(enc_entries(one) == seq![e.0.len() as u8] + e.0 + enc_field(e.1) + Seq::<u8>::empty());
}

proof fn lemma_enc_items_one(v: Val)
    ensures
        enc_items(seq![v]) == enc_field(v),
{
    let one = seq![v];
    assert(one.subrange(1, 1) =~= Seq::<Val>::empty());
    assert(enc_items(Seq::<Val>::empty()) == Seq::<u8>::empty());
    assert(one[0] == v);
    assert(enc_field(v) + Seq::<u8>::empty() =~= enc_field(v));
}

impl FieldValue {
    /// Byte length of the value's wire form, tag excluded.
    pub fn len(&self) -> (r: u64)
        ensures
            r as int == enc(self@).len(),
            wf(self@),
        decreases self, 0int,
    {
        match self {
            FieldValue::V => 0,
            FieldValue::t(_) => 1,
            FieldValue::b(_) => 1,
            FieldValue::B(_) => 1,
            FieldValue::s(_) => 2,
            FieldValue::u(_) => 2,
            FieldValue::I(_) => 4,
            FieldValue::i(_) => 4,
            FieldValue::l(_) => 8,
            FieldValue::f(_) => 4,
            FieldValue::d(_) => 8,
            FieldValue::T(_) => 8,
            FieldValue::D(_) => 5,
            FieldValue::S(v) => {
                proof {
                    use_type_invariant(v);
                    vstd::utf8::encode_utf8_valid_utf8(v.1@);
                }
                4 + v.0 as u64
            },
            FieldValue::A(v) => {
                proof { use_type_invariant(v); }
                4 + v.0 as u64
            },
            FieldValue::F(v) => 4 + v.len_in_bytes() as u64,
            FieldValue::x(v) => {
                proof { use_type_invariant(v); }
                4 + v.0 as u64
            },
        }
    }
}

impl FieldArray {
    #[verifier::type_invariant]
    spec fn inv(self) -> bool {
        &&& wf_items(models(self.1@))
        &&& self.0 as int == enc_items(models(self.1@)).len()
    }

    pub fn new() -> (r: FieldArray)
        ensures
            r@ == Seq::<Val>::empty(),
    {
        let r = FieldArray(0, Vec::new());
        assert(models(r.1@) =~= Seq::<Val>::empty());
        r
    }

    /// Takes `values` when their tagged wire forms together fit a 32-bit length.
    pub fn try_from(values: Vec<FieldValue>) -> (r: Result<FieldArray, AmqpError>)
        ensures
            r is Ok <==> enc_items(models(values@)).len() <= u32::MAX,
            r matches Ok(a) ==> a@ == models(values@),
            r matches Err(e) ==> e == AmqpError::TableLengthOverflow,
    {
        let mut total: u64 = 0;
        let mut i: usize = 0;
        proof { lemma_models(values@); }
        while i < values.len()
            invariant
                i <= values@.len(),
                models(values@).len() == values@.len(),
                forall|j: int| 0 <= j < values@.len() ==> #[trigger] models(values@)[j] == model(values@[j]),
                total as int == enc_items(models(values@).subrange(0, i as int)).len(),
                total <= u32::MAX,
                forall|j: int| 0 <= j < i ==> wf(#[trigger] models(values@)[j]),
            decreases values@.len() - i,
        {
            let n = values[i].len();
            let ghost ms = models(values@);
            proof {
                lemma_enc_items_concat(ms.subrange(0, i as int), seq![ms[i as int]]);
                assert(ms.subrange(0, i as int) + seq![ms[i as int]] =~= ms.subrange(0, i + 1));
                lemma_enc_items_one(ms[i as int]);
            }
            total = total + 1 + n;
            if total > 0xffff_ffff {
                proof {
                    lemma_enc_items_concat(ms.subrange(0, i + 1), ms.subrange(i + 1, ms.len() as int));
                    assert(ms.subrange(0, i + 1) + ms.subrange(i + 1, ms.len() as int) =~= ms);
                }
                return Err(AmqpError::TableLengthOverflow);
            }
            i = i + 1;
        }
        proof {
            assert(models(values@).subrange(0, i as int) =~= models(values@));
        }
        Ok(FieldArray(total as u32, values))
    }

    /// Total byte length of the tagged values, as the wire prefix carries it.
    pub fn byte_len(&self) -> (r: u32)
        ensures
            r as int == enc_items(self@).len(),
    {
        proof { use_type_invariant(self); }
        self.0
    }

    pub fn as_slice(&self) -> (r: &[FieldValue])
        ensures
            models(r@) == self@,
    {
        self.1.as_slice()
    }

    pub fn into_vec(self) -> (r: Vec<FieldValue>)
        ensures
            models(r@) == self@,
    {
        self.1
    }
}

impl FieldTable {
    #[verifier::type_invariant]
    spec fn inv(self) -> bool {
        &&& wf_entries(entry_models(self.0@))
        &&& enc_entries(entry_models(self.0@)).len() <= u32::MAX
    }

    pub fn new() -> (r: FieldTable)
        ensures
            r@ == Seq::<(Seq<u8>, Val)>::empty(),
    {
        let r = FieldTable(Vec::new());
        assert(entry_models(r.0@) =~= Seq::<(Seq<u8>, Val)>::empty());
        r
    }

    /// Byte length of the entries' wire form, as the table's prefix carries it.
    pub fn len_in_bytes(&self) -> (r: u32)
        ensures
            r as int == enc_entries(self@).len(),
            wf(Val::Table(self@)),
        decreases self, 0int,
    {
        proof {
            use_type_invariant(self);
            lemma_entry_models(self.0@);
        }
        let ghost es = entry_models(self.0@);
        let mut total: u64 = 0;
        let mut i: usize = 0;
        while i < self.0.len()
            invariant
                i <= self.0@.len(),
                es == entry_models(self.0@),
                es.len() == self.0@.len(),
                forall|j: int| 0 <= j < self.0@.len() ==> #[trigger] es[j] == (self.0@[j].0@, model(self.0@[j].1)),
                total as int == enc_entries(es.subrange(0, i as int)).len(),
                enc_entries(es).len() <= u32::MAX,
            decreases self.0@.len() - i,
        {
            let e = &self.0[i];
            let n = e.1.len();
            let k = e.0.len();
            proof {
                lemma_enc_entries_concat(es.subrange(0, i as int), seq![es[i as int]]);
                assert(es.subrange(0, i as int) + seq![es[i as int]] =~= es.subrange(0, i + 1));
                lemma_enc_entries_one(es[i as int]);
                lemma_enc_entries_concat(es.subrange(0, i + 1), es.subrange(i + 1, es.len() as int));
                assert(es.subrange(0, i + 1) + es.subrange(i + 1, es.len() as int) =~= es);
            }
            total = total + 2 + k as u64 + n;
            i = i + 1;
        }
        proof {
            assert(es.subrange(0, i as int) =~= es);
        }
        total as u32
    }

    pub fn as_slice(&self) -> (r: &[(ShortStr, FieldValue)])
        ensures
            entry_models(r@) == self@,
    {
        self.0.as_slice()
    }
}

pub fn put_u16(out: &mut Vec<u8>, x: u16)
    ensures
        final(out)@ == old(out)@ + be16(x),
{
    let ghost o = out@;
    out.push((x >> 8u16) as u8);
    out.push(x as u8);
    assert(out@ =~= o + be16(x));
}

pub fn put_u32(out: &mut Vec<u8>, x: u32)
    ensures
        final(out)@ == old(out)@ + be32(x),
{
    let ghost o = out@;
    out.push((x >> 24u32) as u8);
    out.push((x >> 16u32) as u8);
    out.push((x >> 8u32) as u8);
    out.push(x as u8);
    assert(out@ =~= o + be32(x));
}

pub fn put_u64(out: &mut Vec<u8>, x: u64)
    ensures
        final(out)@ == old(out)@ + be64(x),
{
    let ghost o = out@;
    out.push((x >> 56u64) as u8);
    out.push((x >> 48u64) as u8);
    out.push((x >> 40u64) as u8);
    out.push((x >> 32u64) as u8);
    out.push((x >> 24u64) as u8);
    out.push((x >> 16u64) as u8);
    out.push((x >> 8u64) as u8);
    out.push(x as u8);
    assert(out@ =~= o + be64(x));
}

pub fn put_bytes(out: &mut Vec<u8>, b: &[u8])
    ensures
        final(out)@ == old(out)@ + b@,
{
    let ghost o = out@;
    let mut i: usize = 0;
    while i < b.len()
        invariant
            i <= b@.len(),
            out@ == o + b@.subrange(0, i as int),
        decreases b@.len() - i,
    {
        out.push(b[i]);
        i = i + 1;
        assert(out@ =~= o + b@.subrange(0, i as int));
    }
    assert(b@.subrange(0, i as int) =~= b@);
}

/// Appends the tag and wire form of `v` to `out`.
#[verifier::spinoff_prover]
pub fn encode_value(v: &FieldValue, out: &mut Vec<u8>)
    ensures
        final(out)@ == old(out)@ + enc_field(v@),
    decreases v, 1int,
{
    let ghost o = out@;
    match v {
        FieldValue::t(x) => {
            out.push(0x74u8);
            out.push(if *x { 1u8 } else { 0u8 });
        },
        FieldValue::b(x) => {
            out.push(0x62u8);
            out.push(*x as u8);
        },
        FieldValue::B(x) => {
            out.push(0x42u8);
            out.push(*x);
        },
        FieldValue::s(x) => {
            out.push(0x73u8);
            put_u16(out, *x as u16);
        },
        FieldValue::u(x) => {
            out.push(0x75u8);
            put_u16(out, *x);
        },
        FieldValue::I(x) => {
            out.push(0x49u8);
            put_u32(out, *x as u32);
        },
        FieldValue::i(x) => {
            out.push(0x69u8);
            put_u32(out, *x);
        },
        FieldValue::l(x) => {
            out.push(0x6cu8);
            put_u64(out, *x as u64);
        },
        FieldValue::f(x) => {
            out.push(0x66u8);
            put_u32(out, *x);
        },
        FieldValue::d(x) => {
            out.push(0x64u8);
            put_u64(out, *x);
        },
        FieldValue::D(x) => {
            out.push(0x44u8);
            out.push(x.0);
            put_u32(out, x.1 as u32);
        },
        FieldValue::S(x) => {
            proof { use_type_invariant(x); }
            out.push(0x53u8);
            put_u32(out, x.0);
            put_bytes(out, x.1.as_str().as_bytes());
        },
        FieldValue::A(x) => {
            proof { use_type_invariant(x); }
            out.push(0x41u8);
            put_u32(out, x.0);
            let ghost ms = models(x.1@);
            let ghost mid = out@;
            proof { lemma_models(x.1@); }
            let mut i: usize = 0;
            while i < x.1.len()
                invariant
                    *v == FieldValue::A(*x),
                    i <= x.1@.len(),
                    ms == models(x.1@),
                    ms.len() == x.1@.len(),
                    forall|j: int| 0 <= j < x.1@.len() ==> #[trigger] ms[j] == model(x.1@[j]),
                    out@ == mid + enc_items(ms.subrange(0, i as int)),
                decreases x.1@.len() - i,
            {
                proof {
                    assert(decreases_to!(*v => v->A_0));
                    assert(decreases_to!(v->A_0 => v->A_0.1));
                    assert(decreases_to!(x.1 => x.1@));
                    assert(decreases_to!(x.1@ => x.1@[i as int]));
                    assert(decreases_to!(*v => x.1@[i as int]));
                }
                encode_value(&x.1[i], out);
                proof {
                    lemma_enc_items_concat(ms.subrange(0, i as int), seq![ms[i as int]]);
                    assert(ms.subrange(0, i as int) + seq![ms[i as int]] =~= ms.subrange(0, i + 1));
                    lemma_enc_items_one(ms[i as int]);
                }
                i = i + 1;
            }
            proof { assert(ms.subrange(0, i as int) =~= ms); }
        },
        FieldValue::T(x) => {
            out.push(0x54u8);
            put_u64(out, *x);
        },
        FieldValue::F(x) => {
            out.push(0x46u8);
            x.encode(out);
        },
        FieldValue::V => {
            out.push(0x56u8);
        },
        FieldValue::x(x) => {
            proof { use_type_invariant(x); }
            out.push(0x78u8);
            put_u32(out, x.0);
            put_bytes(out, x.1.as_slice());
        },
    }
    assert(out@ =~= o + enc_field(v@));
}

impl FieldTable {
    /// Appends the table's wire form: the 32-bit byte length of the entries,
    /// then each entry as name and tagged value.
    pub fn encode(&self, out: &mut Vec<u8>)
        ensures
            final(out)@ == old(out)@ + enc(Val::Table(self@)),
            final(out)@.len() == old(out)@.len() + 4 + enc_entries(self@).len(),
        decreases self, 1int,
    {
        let n = self.len_in_bytes();
        put_u32(out, n);
        let ghost es = entry_models(self.0@);
        let ghost mid = out@;
        proof { lemma_entry_models(self.0@); }
        let mut i: usize = 0;
        while i < self.0.len()
            invariant
                i <= self.0@.len(),
                es == entry_models(self.0@),
                es.len() == self.0@.len(),
                forall|j: int| 0 <= j < self.0@.len() ==> #[trigger] es[j] == (self.0@[j].0@, model(self.0@[j].1)),
                out@ == mid + enc_entries(es.subrange(0, i as int)),
            decreases self.0@.len() - i,
        {
            let e = &self.0[i];
            proof { use_type_invariant(&e.0); }
            out.push(e.0.0);
            put_bytes(out, e.0.1.as_str().as_bytes());
            encode_value(&e.1, out);
            proof {
                lemma_enc_entries_concat(es.subrange(0, i as int), seq![es[i as int]]);
                assert(es.subrange(0, i as int) + seq![es[i as int]] =~= es.subrange(0, i + 1));
                let one = seq![es[i as int]];
                assert(one.subrange(1, 1) =~= Seq::<(Seq<u8>, Val)>::empty());
                assert(enc_entries(Seq::<(Seq<u8>, Val)>::empty()) == Seq::<u8>::empty());
                assert(enc_entries(one) =~= seq![es[i as int].0.len() as u8] + es[i as int].0 + enc_field(es[i as int].1));
                assert(out@ =~= mid + enc_entries(es.subrange(0, i + 1)));
            }
            i = i + 1;
        }
        proof { assert(es.subrange(0, i as int) =~= es); }
    }
}

/// The tag and wire form of `v`.
pub fn encode(v: &FieldValue) -> (r: Vec<u8>)
    ensures
        r@ == enc_field(v@),
{
    let mut out: Vec<u8> = Vec::new();
    encode_value(v, &mut out);
    assert(out@ =~= enc_field(v@));
    out
}

/// Relies on `std::str::from_utf8`: it accepts exactly the valid UTF-8 byte
/// strings, and the string it gives has those bytes.
#[verifier::external_body]
pub(crate) fn utf8_string(b: &[u8]) -> (r: Option<String>)
    ensures
        r is Some <==> valid_utf8(b@),
        r matches Some(s) ==> encode_utf8(s@) == b@,
{
    match std::str::from_utf8(b) {
        Ok(s) => Some(s.to_string()),
        Err(_) => None,
    }
}

pub fn get_u16(b: &[u8], i: usize) -> (r: u16)
    requires
        i + 2 <= b@.len(),
    ensures
        r == get16(b@, i as int),
{
    ((b[i] as u16) << 8u16) | (b[i + 1] as u16)
}

pub fn get_u32(b: &[u8], i: usize) -> (r: u32)
    requires
        i + 4 <= b@.len(),
    ensures
        r == get32(b@, i as int),
{
    ((b[i] as u32) << 24u32) | ((b[i + 1] as u32) << 16u32) | ((b[i + 2] as u32) << 8u32) | (b[i
        + 3] as u32)
}

pub fn get_u64(b: &[u8], i: usize) -> (r: u64)
    requires
        i + 8 <= b@.len(),
    ensures
        r == get64(b@, i as int),
{
    let _n = b.len();
    ((get_u32(b, i) as u64) << 32u64) | (get_u32(b, i + 4) as u64)
}

pub(crate) fn copy_range(b: &[u8], start: usize, end: usize) -> (r: Vec<u8>)
    requires
        start <= end <= b@.len(),
    ensures
        r@ == b@.subrange(start as int, end as int),
{
    let mut r: Vec<u8> = Vec::new();
    let mut i = start;
    while i < end
        invariant
            start <= i <= end <= b@.len(),
            r@ == b@.subrange(start as int, i as int),
        decreases end - i,
    {
        r.push(b[i]);
        i = i + 1;
        assert(r@ =~= b@.subrange(start as int, i as int));
    }
    r
}

/// Whether `t` is one of the seventeen value tags.
pub open spec fn known_tag(t: u8) -> bool {
    t == 0x74u8 || t == 0x62u8 || t == 0x42u8 || t == 0x73u8 || t == 0x75u8 || t == 0x49u8 || t
        == 0x69u8 || t == 0x6cu8 || t == 0x66u8 || t == 0x64u8 || t == 0x44u8 || t == 0x53u8 || t
        == 0x41u8 || t == 0x54u8 || t == 0x46u8 || t == 0x56u8 || t == 0x78u8
}

/// Reads the value of kind `t` from `buf[pos..end]`; gives it with the
/// position just after it.
#[verifier::spinoff_prover]
#[verifier::rlimit(50)]
pub fn decode_payload(t: u8, buf: &[u8], pos: usize, end: usize) -> (r: Result<(FieldValue, usize), AmqpError>)
    requires
        pos <= end <= buf@.len(),
    ensures
        match dec(t, buf@.subrange(pos as int, end as int)) {
            Some((v, n)) => r matches Ok((x, p)) && x@ == v && p == pos + n,
            None => r is Err,
        },
        !known_tag(t) ==> r == Err::<(FieldValue, usize), AmqpError>(AmqpError::UnknownTag),
    decreases end - pos, 1int,
{
    let ghost b = buf@.subrange(pos as int, end as int);
    let len = end - pos;
    if t == 0x74u8 {
        if len < 1 { return Err(AmqpError::MalformedFrame); }
        Ok((FieldValue::t(buf[pos] != 0), pos + 1))
    } else if t == 0x62u8 {
        if len < 1 { return Err(AmqpError::MalformedFrame); }
        Ok((FieldValue::b(buf[pos] as i8), pos + 1))
    } else if t == 0x42u8 {
        if len < 1 { return Err(AmqpError::MalformedFrame); }
        Ok((FieldValue::B(buf[pos]), pos + 1))
    } else if t == 0x73u8 {
        if len < 2 { return Err(AmqpError::MalformedFrame); }
        Ok((FieldValue::s(get_u16(buf, pos) as i16), pos + 2))
    } else if t == 0x75u8 {
        if len < 2 { return Err(AmqpError::MalformedFrame); }
        Ok((FieldValue::u(get_u16(buf, pos)), pos + 2))
    } else if t == 0x49u8 {
        if len < 4 { return Err(AmqpError::MalformedFrame); }
        Ok((FieldValue::I(get_u32(buf, pos) as i32), pos + 4))
    } else if t == 0x69u8 {
        if len < 4 { return Err(AmqpError::MalformedFrame); }
        Ok((FieldValue::i(get_u32(buf, pos)), pos + 4))
    } else if t == 0x6cu8 {
        if len < 8 { return Err(AmqpError::MalformedFrame); }
        Ok((FieldValue::l(get_u64(buf, pos) as i64), pos + 8))
    } else if t == 0x66u8 {
        if len < 4 { return Err(AmqpError::MalformedFrame); }
        Ok((FieldValue::f(get_u32(buf, pos)), pos + 4))
    } else if t == 0x64u8 {
        if len < 8 { return Err(AmqpError::MalformedFrame); }
        Ok((FieldValue::d(get_u64(buf, pos)), pos + 8))
    } else if t == 0x44u8 {
        if len < 5 { return Err(AmqpError::MalformedFrame); }
        Ok((FieldValue::D(DecimalValue(buf[pos], get_u32(buf, pos + 1) as i32)), pos + 5))
    } else if t == 0x54u8 {
        if len < 8 { return Err(AmqpError::MalformedFrame); }
        Ok((FieldValue::T(get_u64(buf, pos)), pos + 8))
    } else if t == 0x56u8 {
        Ok((FieldValue::V, pos))
    } else if t == 0x53u8 || t == 0x78u8 || t == 0x41u8 || t == 0x46u8 {
        if len < 4 { return Err(AmqpError::MalformedFrame); }
        let n = get_u32(buf, pos);
        proof { assert(get32(b, 0) == get32(buf@, pos as int)); }
        if ((len - 4) as u64) < n as u64 { return Err(AmqpError::MalformedFrame); }
        let start = pos + 4;
        let stop = start + n as usize;
        proof {
            assert(b.subrange(4, 4 + n as int) =~= buf@.subrange(start as int, stop as int));
        }
        if t == 0x53u8 {
            let bytes = copy_range(buf, start, stop);
            match utf8_string(bytes.as_slice()) {
                Some(text) => Ok((FieldValue::S(LongStr(n, text)), stop)),
                None => Err(AmqpError::MalformedFrame),
            }
        } else if t == 0x78u8 {
            let bytes = copy_range(buf, start, stop);
            Ok((FieldValue::x(ByteArray(n, bytes)), stop))
        } else if t == 0x41u8 {
            let items = decode_items(buf, start, stop)?;
            proof {
                lemma_dec_items_sound(buf@.subrange(start as int, stop as int));
            }
            Ok((FieldValue::A(FieldArray(n, items)), stop))
        } else {
            let entries = decode_entries(buf, start, stop)?;
            proof {
                let body = buf@.subrange(start as int, stop as int);
                assert(dec_entries(body) is Some);
                let es = dec_entries(body)->0;
                assert(distinct_names(es));
                assert(entry_models(entries@) == es);
                lemma_dec_entries_sound(body);
                assert(wf_entries(es));
            }
            Ok((FieldValue::F(FieldTable(entries)), stop))
        }
    } else {
        Err(AmqpError::UnknownTag)
    }
}

/// Reads one tagged value from `buf[pos..end]`.
pub fn decode_field(buf: &[u8], pos: usize, end: usize) -> (r: Result<(FieldValue, usize), AmqpError>)
    requires
        pos <= end <= buf@.len(),
    ensures
        match dec_field(buf@.subrange(pos as int, end as int)) {
            Some((v, n)) => r matches Ok((x, p)) && x@ == v && p == pos + n,
            None => r is Err,
        },
    decreases end - pos, 2int,
{
    if pos >= end {
        return Err(AmqpError::MalformedFrame);
    }
    proof {
        assert(buf@.subrange(pos as int, end as int).subrange(1, end - pos) =~= buf@.subrange(pos + 1, end as int));
    }
    let (v, p) = decode_payload(buf[pos], buf, pos + 1, end)?;
    Ok((v, p))
}

/// Reads tagged values filling `buf[pos..end]` exactly.
#[verifier::spinoff_prover]
#[verifier::rlimit(50)]
fn decode_items(buf: &[u8], pos: usize, end: usize) -> (r: Result<Vec<FieldValue>, AmqpError>)
    requires
        pos <= end <= buf@.len(),
    ensures
        match dec_items(buf@.subrange(pos as int, end as int)) {
            Some(s) => r matches Ok(x) && models(x@) == s,
            None => r is Err,
        },
    decreases end - pos, 3int,
{
    let ghost whole = buf@.subrange(pos as int, end as int);
    let mut items: Vec<FieldValue> = Vec::new();
    let mut p = pos;
    proof { assert(models(items@) =~= Seq::<Val>::empty()); }
    while p < end
        invariant
            pos <= p <= end <= buf@.len(),
            whole == buf@.subrange(pos as int, end as int),
            dec_items(whole) == match dec_items(buf@.subrange(p as int, end as int)) {
                Some(rest) => Some(models(items@) + rest),
                None => None::<Seq<Val>>,
            },
        decreases end - p,
    {
        let ghost b = buf@.subrange(p as int, end as int);
        let (v, q) = match decode_field(buf, p, end) {
            Ok(x) => x,
            Err(e) => {
                proof { assert(dec_items(b) is None); }
                return Err(e);
            },
        };
        proof {
            lemma_dec_field_sound(b);
            assert(b.subrange(q - p, b.len() as int) =~= buf@.subrange(q as int, end as int));
            lemma_models(items@);
            lemma_models(items@.push(v));
            assert(models(items@.push(v)) =~= models(items@) + seq![v@]);
            match dec_items(buf@.subrange(q as int, end as int)) {
                Some(rest) => {
                    assert(models(items@) + (seq![v@] + rest) =~= models(items@.push(v)) + rest);
                },
                None => {},
            }
        }
        items.push(v);
        p = q;
    }
    proof {
        assert(buf@.subrange(p as int, end as int) =~= Seq::<u8>::empty());
        assert(models(items@) + Seq::<Val>::empty() =~= models(items@));
    }
    Ok(items)
}

/// Reads named entries filling `buf[pos..end]` exactly; a repeated name fails.
#[verifier::spinoff_prover]
#[verifier::rlimit(100)]
fn decode_entries(buf: &[u8], pos: usize, end: usize) -> (r: Result<Vec<(ShortStr, FieldValue)>, AmqpError>)
    requires
        pos <= end <= buf@.len(),
    ensures
        match dec_entries(buf@.subrange(pos as int, end as int)) {
            Some(es) => if distinct_names(es) {
                r matches Ok(x) && entry_models(x@) == es
            } else {
                r is Err
            },
            None => r is Err,
        },
    decreases end - pos, 3int,
{
    let ghost whole = buf@.subrange(pos as int, end as int);
    let mut entries: Vec<(ShortStr, FieldValue)> = Vec::new();
    let mut p = pos;
    proof { assert(entry_models(entries@) =~= Seq::<(Seq<u8>, Val)>::empty()); }
    while p < end
        invariant
            pos <= p <= end <= buf@.len(),
            whole == buf@.subrange(pos as int, end as int),
            dec_entries(whole) == match dec_entries(buf@.subrange(p as int, end as int)) {
                Some(rest) => Some(entry_models(entries@) + rest),
                None => None::<Seq<(Seq<u8>, Val)>>,
            },
            distinct_names(entry_models(entries@)),
        decreases end - p,
    {
        let ghost b = buf@.subrange(p as int, end as int);
        let k = buf[p] as usize;
        if end - p - 1 < k {
            proof { assert(dec_entries(b) is None); }
            return Err(AmqpError::MalformedFrame);
        }
        let name_end = p + 1 + k;
        let bytes = copy_range(buf, p + 1, name_end);
        proof { assert(b.subrange(1, 1 + k) =~= bytes@); }
        let text = match utf8_string(bytes.as_slice()) {
            Some(x) => x,
            None => {
                proof { assert(dec_entries(b) is None); }
                return Err(AmqpError::MalformedFrame);
            },
        };
        proof { assert(b.subrange(1 + k, b.len() as int) =~= buf@.subrange(name_end as int, end as int)); }
        let (v, q) = match decode_field(buf, name_end, end) {
            Ok(x) => x,
            Err(e) => {
                proof { assert(dec_entries(b) is None); }
                return Err(e);
            },
        };
        let name = ShortStr(k as u8, text);
        proof {
            lemma_dec_field_sound(buf@.subrange(name_end as int, end as int));
            assert(b.subrange(1 + k + (q - name_end), b.len() as int) =~= buf@.subrange(q as int, end as int));
            lemma_entry_models(entries@);
            lemma_entry_models(entries@.push((name, v)));
            assert(entry_models(entries@.push((name, v))) =~= entry_models(entries@) + seq![(name@, v@)]);
        }
        let mut j: usize = 0;
        let mut found = false;
        while j < entries.len() && !found
            invariant
                j <= entries@.len(),
                found ==> j < entries@.len() && entries@[j as int].0@ == name@,
                forall|i: int| 0 <= i < j ==> entries@[i].0@ != name@,
            decreases entries@.len() - j + if found { 0int } else { 1int },
        {
            proof {
                vstd::utf8::encode_utf8_decode_utf8(entries@[j as int].0.1@);
                vstd::utf8::encode_utf8_decode_utf8(name.1@);
            }
            if entries[j].0.1 == name.1 {
                found = true;
            } else {
                j = j + 1;
            }
        }
        if found {
            proof {
                let es = entry_models(entries@);
                match dec_entries(buf@.subrange(q as int, end as int)) {
                    Some(rest) => {
                        let all = es + (seq![(name@, v@)] + rest);
                        assert(all[j as int].0 == all[es.len() as int].0);
                        assert(!distinct_names(all));
                        assert(dec_entries(b) == Some(seq![(name@, v@)] + rest));
                    },
                    None => {},
                }
            }
            return Err(AmqpError::MalformedFrame);
        }
        proof {
            let es = entry_models(entries@);
            let es2 = entry_models(entries@.push((name, v)));
            assert(distinct_names(es2)) by {
                assert forall|a: int, c: int| 0 <= a < c < es2.len() implies #[trigger] es2[a].0 != #[trigger] es2[c].0 by {
                    if c == es.len() {
                        assert(es2[a] == es[a]);
                    } else {
                        assert(es2[a] == es[a] && es2[c] == es[c]);
                    }
                }
            }
            match dec_entries(buf@.subrange(q as int, end as int)) {
                Some(rest) => {
                    assert(es + (seq![(name@, v@)] + rest) =~= es2 + rest);
                },
                None => {},
            }
        }
        entries.push((name, v));
        p = q;
    }
    proof {
        assert(buf@.subrange(p as int, end as int) =~= Seq::<u8>::empty());
        assert(entry_models(entries@) + Seq::<(Seq<u8>, Val)>::empty() =~= entry_models(entries@));
    }
    Ok(entries)
}

/// Reads one tagged value at the front of `buf`; gives it with the number
/// of bytes it took.
pub fn decode(buf: &[u8]) -> (r: Result<(FieldValue, usize), AmqpError>)
    ensures
        match dec_field(buf@) {
            Some((v, n)) => r matches Ok((x, p)) && x@ == v && p == n,
            None => r is Err,
        },
{
    proof { assert(buf@.subrange(0, buf@.len() as int) =~= buf@); }
    decode_field(buf, 0, buf.len())
}

/// The entries after putting `(k, v)`: an entry named `k` takes the new
/// value in its place; otherwise the entry is added at the end.
pub open spec fn table_put(es: Seq<(Seq<u8>, Val)>, k: Seq<u8>, v: Val) -> Seq<(Seq<u8>, Val)> {
    if exists|i: int| 0 <= i < es.len() && #[trigger] es[i].0 == k {
        let i = choose|i: int| 0 <= i < es.len() && #[trigger] es[i].0 == k;
        es.update(i, (k, v))
    } else {
        es.push((k, v))
    }
}

proof fn lemma_enc_entries_split(es: Seq<(Seq<u8>, Val)>, j: int)
    requires
        0 <= j < es.len(),
    ensures
        enc_entries(es).len() == enc_entries(es.subrange(0, j)).len() + entry_len(es[j])
            + enc_entries(es.subrange(j + 1, es.len() as int)).len(),
{
    let a = es.subrange(0, j);
    let b = es.subrange(j + 1, es.len() as int);
    lemma_enc_entries_concat(a, seq![es[j]]);
    lemma_enc_entries_concat(a + seq![es[j]], b);
    lemma_enc_entries_one(es[j]);
    assert(a + seq![es[j]] + b =~= es);
}

impl FieldTable {
    /// Puts `value` under `name`, replacing the value of an entry with that
    /// name. Fails when the entries would no longer fit a 32-bit length.
    #[verifier::spinoff_prover]
    #[verifier::rlimit(100)]
    pub fn insert(self, name: ShortStr, value: FieldValue) -> (r: Result<FieldTable, AmqpError>)
        ensures
            r is Ok <==> enc_entries(table_put(self@, name@, value@)).len() <= u32::MAX,
            r matches Ok(t) ==> t@ == table_put(self@, name@, value@),
            r matches Err(e) ==> e == AmqpError::TableLengthOverflow,
    {
        proof {
            use_type_invariant(&self);
            use_type_invariant(&name);
            vstd::utf8::encode_utf8_valid_utf8(name.1@);
            lemma_entry_models(self.0@);
        }
        let total = self.len_in_bytes() as u64;
        let vlen = value.len();
        let new_e = 2 + name.len() as u64 + vlen;
        let ghost es = self@;
        let ghost e = (name@, value@);
        let mut j: usize = 0;
        let mut found = false;
        while j < self.0.len() && !found
            invariant
                j <= self.0@.len(),
                es == entry_models(self.0@),
                es.len() == self.0@.len(),
                forall|i: int| 0 <= i < self.0@.len() ==> #[trigger] es[i] == (self.0@[i].0@, model(self.0@[i].1)),
                found ==> j < self.0@.len() && es[j as int].0 == name@,
                forall|i: int| 0 <= i < j ==> es[i].0 != name@,
            decreases self.0@.len() - j + if found { 0int } else { 1int },
        {
            proof {
                vstd::utf8::encode_utf8_decode_utf8(self.0@[j as int].0.1@);
                vstd::utf8::encode_utf8_decode_utf8(name.1@);
            }
            if self.0[j].0.1 == name.1 {
                found = true;
            } else {
                j = j + 1;
            }
        }
        let ghost put = table_put(es, name@, value@);
        let FieldTable(mut v) = self;
        if found {
            let old_e = 2 + v[j].0.len() as u64 + v[j].1.len();
            proof {
                assert(es[j as int].0 == name@);
                assert(exists|i: int| 0 <= i < es.len() && #[trigger] es[i].0 == name@);
                let c = choose|i: int| 0 <= i < es.len() && #[trigger] es[i].0 == name@;
                assert(c == j) by {
                    if c < j {
                    } else if c > j {
                        assert(es[j as int].0 != es[c].0);
                    }
                }
                assert(put =~= es.update(j as int, e));
                lemma_enc_entries_split(es, j as int);
                lemma_enc_entries_split(put, j as int);
                assert(put.subrange(0, j as int) =~= es.subrange(0, j as int));
                assert(put.subrange(j + 1, put.len() as int) =~= es.subrange(j + 1, es.len() as int));
            }
            let new_total = total - old_e + new_e;
            if new_total > 0xffff_ffff {
                return Err(AmqpError::TableLengthOverflow);
            }
            let _ = v.remove(j);
            v.insert(j, (name, value));
            proof {
                lemma_entry_models(v@);
                assert(entry_models(v@) =~= put);
                assert(wf_entries(put)) by {
                    assert forall|a: int, c: int| 0 <= a < c < put.len() implies #[trigger] put[a].0 != #[trigger] put[c].0 by {
                        assert(put[a].0 == es[a].0 && put[c].0 == es[c].0);
                    }
                }
            }
            Ok(FieldTable(v))
        } else {
            proof {
                assert(!exists|i: int| 0 <= i < es.len() && #[trigger] es[i].0 == name@);
                assert(put == es.push(e));
                assert(es.push(e) =~= es + seq![e]);
                lemma_enc_entries_concat(es, seq![e]);
                lemma_enc_entries_one(e);
            }
            let new_total = total + new_e;
            if new_total > 0xffff_ffff {
                return Err(AmqpError::TableLengthOverflow);
            }
            v.push((name, value));
            proof {
                lemma_entry_models(v@);
                assert(entry_models(v@) =~= put);
                assert(es + seq![e] =~= put);
                assert(wf_entries(put)) by {
                    assert forall|a: int, c: int| 0 <= a < c < put.len() implies #[trigger] put[a].0 != #[trigger] put[c].0 by {
                        if c < es.len() {
                            assert(put[a].0 == es[a].0 && put[c].0 == es[c].0);
                        } else {
                            assert(put[a].0 == es[a].0);
                        }
                    }
                }
            }
            Ok(FieldTable(v))
        }
    }
}

impl ShortStr {
    /// Appends the one-byte length and the bytes.
    pub fn encode(&self, out: &mut Vec<u8>)
        ensures
            final(out)@ == old(out)@ + seq![self@.len() as u8] + self@,
    {
        proof { use_type_invariant(self); }
        let ghost o = out@;
        out.push(self.0);
        put_bytes(out, self.1.as_str().as_bytes());
        assert(out@ =~= o + seq![self@.len() as u8] + self@);
    }
}

impl FieldValue {
    pub fn as_bool(&self) -> (r: Option<bool>)
        ensures
            r == match self@ {
                Val::Bool(b) => Some(b),
                _ => None::<bool>,
            },
    {
        match self {
            FieldValue::t(b) => Some(*b),
            _ => None,
        }
    }

    pub fn as_table(&self) -> (r: Option<&FieldTable>)
        ensures
            self@ is Table <==> r is Some,
            r matches Some(t) ==> self@ == Val::Table(t@),
    {
        match self {
            FieldValue::F(t) => Some(t),
            _ => None,
        }
    }

    pub fn as_long_str(&self) -> (r: Option<&LongStr>)
        ensures
            self@ is Str <==> r is Some,
            r matches Some(s) ==> self@ == Val::Str(s@),
    {
        match self {
            FieldValue::S(s) => Some(s),
            _ => None,
        }
    }
}

impl LongStr {
    /// Appends the four-byte length and the bytes.
    pub fn encode(&self, out: &mut Vec<u8>)
        ensures
            final(out)@ == old(out)@ + be32(self@.len() as u32) + self@,
    {
        proof { use_type_invariant(self); }
        let ghost o = out@;
        put_u32(out, self.0);
        put_bytes(out, self.1.as_str().as_bytes());
        assert(out@ =~= o + be32(self@.len() as u32) + self@);
    }
}

impl Default for ShortStr {
    fn default() -> (r: ShortStr)
        ensures
            r@ == Seq::<u8>::empty(),
    {
        ShortStr::empty()
    }
}

impl Default for LongStr {
    fn default() -> (r: LongStr)
        ensures
            r@ == Seq::<u8>::empty(),
    {
        LongStr::empty()
    }
}

impl Default for FieldArray {
    fn default() -> (r: FieldArray)
        ensures
            r@ == Seq::<Val>::empty(),
    {
        FieldArray::new()
    }
}

impl Default for FieldTable {
    fn default() -> (r: FieldTable)
        ensures
            r@ == Seq::<(Seq<u8>, Val)>::empty(),
    {
        FieldTable::new()
    }
}

impl From<bool> for FieldValue {
    fn from(v: bool) -> FieldValue {
        FieldValue::t(v)
    }
}

impl vstd::std_specs::convert::FromSpecImpl<bool> for FieldValue {
    open spec fn obeys_from_spec() -> bool {
        true
    }

    open spec fn from_spec(v: bool) -> FieldValue {
        FieldValue::t(v)
    }
}

impl From<FieldTable> for FieldValue {
    fn from(v: FieldTable) -> FieldValue {
        FieldValue::F(v)
    }
}

impl vstd::std_specs::convert::FromSpecImpl<FieldTable> for FieldValue {
    open spec fn obeys_from_spec() -> bool {
        true
    }

    open spec fn from_spec(v: FieldTable) -> FieldValue {
        FieldValue::F(v)
    }
}

impl From<LongStr> for FieldValue {
    fn from(v: LongStr) -> FieldValue {
        FieldValue::S(v)
    }
}

impl vstd::std_specs::convert::FromSpecImpl<LongStr> for FieldValue {
    open spec fn obeys_from_spec() -> bool {
        true
    }

    open spec fn from_spec(v: LongStr) -> FieldValue {
        FieldValue::S(v)
    }
}

} // verus!
