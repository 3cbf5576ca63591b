use amqprs::error::AmqpError;
use amqprs::types::{
    decode, encode, ByteArray, DecimalValue, FieldArray, FieldTable, FieldValue, LongStr, ShortStr,
};

fn short(s: &str) -> ShortStr {
    ShortStr::try_from(s.to_string()).unwrap()
}

fn long(s: &str) -> LongStr {
    LongStr::try_from(s.to_string()).unwrap()
}

fn show(v: &FieldValue) -> String {
    match v {
        FieldValue::t(b) => format!("{}", b),
        FieldValue::D(d) => format!("Decimal({}, {})", d.scale(), d.value()),
        other => format!("{:?}", other),
    }
}

fn show_array(a: &FieldArray) -> String {
    let parts: Vec<String> = a.as_slice().iter().map(show).collect();
    format!("[ {} ]", parts.join(", "))
}

fn show_table(t: &FieldTable) -> String {
    let parts: Vec<String> = t
        .as_slice()
        .iter()
        .map(|(k, v)| format!("{:?}: {:?}", k.as_str(), v))
        .collect();
    format!("{{{}}}", parts.join(", "))
}

fn round_trip(v: FieldValue) {
    let bytes = encode(&v);
    let (back, used) = decode(&bytes).unwrap();
    assert_eq!(used, bytes.len());
    assert_eq!(back, v);
}

#[test]
fn test_field_table() {
    let table = FieldTable::new()
        .insert(short("Cash"), FieldValue::D(DecimalValue::new(3, 123456)))
        .unwrap();
    assert_eq!(11, table.len_in_bytes());
    assert_eq!("{\"Cash\": D(DecimalValue(3, 123456))}", show_table(&table));
}

#[test]
fn test_field_array() {
    let exp = || vec![FieldValue::t(true), FieldValue::D(DecimalValue::new(3, 123456))];
    let field_arr = FieldArray::try_from(exp()).unwrap();
    assert_eq!("[ true, Decimal(3, 123456) ]", show_array(&field_arr));
    let arr: Vec<FieldValue> = field_arr.into_vec();
    assert_eq!(exp(), arr);
}

#[test]
fn test_bytes_array() {
    let exp: Vec<u8> = vec![1, 2, 3];
    let bytes_arr = ByteArray::try_from(exp.clone()).unwrap();
    assert_eq!(3, bytes_arr.len());
    let arr: Vec<u8> = bytes_arr.into_vec();
    assert_eq!(exp, arr);
}

#[test]
fn test_shortstr() {
    let s = ShortStr::default();
    assert_eq!(ShortStr::try_from("".to_owned()).unwrap(), s);
    assert_eq!(ShortStr::empty(), s);
    let exp = "x".repeat(255);
    let s = ShortStr::try_from(exp.clone()).unwrap();
    assert_eq!(255, s.len());
    let s: String = s.into_string();
    assert_eq!(exp, s);
}

#[test]
fn test_longstr() {
    let s = LongStr::default();
    assert_eq!(LongStr::try_from("".to_owned()).unwrap(), s);
    assert_eq!(LongStr::empty(), s);
    let exp = "x".repeat(256);
    let s = LongStr::try_from(exp.clone()).unwrap();
    assert_eq!(256, s.len());
    let s: String = s.into_string();
    assert_eq!(exp, s);
}

#[test]
fn test_field_value() {
    let exp = FieldValue::t(true);
    assert_eq!(exp, true.into());
    assert_eq!(Some(true), exp.as_bool());

    let exp = FieldValue::F(FieldTable::default());
    assert_eq!(exp, FieldTable::default().into());
    assert_eq!(Some(&FieldTable::default()), exp.as_table());
    assert_eq!(FieldArray::default(), FieldArray::new());

    let exp = FieldValue::S(long("X"));
    assert_eq!(exp, long("X").into());
    assert_eq!("X", exp.as_long_str().unwrap().as_str());
    assert_eq!(None, exp.as_bool());
}

#[test]
fn short_string_over_255_bytes_is_refused() {
    let r = ShortStr::try_from("y".repeat(256));
    assert_eq!(r, Err(AmqpError::ShortStringOverflow));
    // 128 two-byte characters are 256 bytes
    let r = ShortStr::try_from("é".repeat(128));
    assert_eq!(r, Err(AmqpError::ShortStringOverflow));
    assert!(ShortStr::try_from("é".repeat(127)).is_ok());
}

#[test]
fn short_string_of_255_bytes_encodes_with_ff_prefix() {
    let s = short(&"a".repeat(255));
    let mut out = Vec::new();
    s.encode(&mut out);
    assert_eq!(out.len(), 256);
    assert_eq!(out[0], 0xff);
    assert!(out[1..].iter().all(|b| *b == b'a'));
}

#[test]
fn scalar_wire_forms() {
    assert_eq!(encode(&FieldValue::t(true)), vec![b't', 1]);
    assert_eq!(encode(&FieldValue::s(-2)), vec![b's', 0xff, 0xfe]);
    assert_eq!(encode(&FieldValue::I(0x01020304)), vec![b'I', 1, 2, 3, 4]);
    assert_eq!(encode(&FieldValue::l(-1)), vec![b'l', 0xff, 0xff, 0xff, 0xff, 0xff, 0xff, 0xff, 0xff]);
    assert_eq!(encode(&FieldValue::D(DecimalValue::new(3, 123456))), vec![b'D', 3, 0, 1, 0xe2, 0x40]);
    assert_eq!(encode(&FieldValue::V), vec![b'V']);
    assert_eq!(encode(&FieldValue::S(long("hi"))), vec![b'S', 0, 0, 0, 2, b'h', b'i']);
    assert_eq!(encode(&FieldValue::x(ByteArray::try_from(vec![9]).unwrap())), vec![b'x', 0, 0, 0, 1, 9]);
    assert_eq!(encode(&FieldValue::F(FieldTable::new())), vec![b'F', 0, 0, 0, 0]);
}

#[test]
fn float_bits_round_trip() {
    round_trip(FieldValue::f(1.5f32.to_bits()));
    round_trip(FieldValue::d((-0.25f64).to_bits()));
    let bytes = encode(&FieldValue::f(1.5f32.to_bits()));
    assert_eq!(bytes, vec![b'f', 0x3f, 0xc0, 0, 0]);
}

fn every_variant() -> Vec<FieldValue> {
    vec![
        FieldValue::t(false),
        FieldValue::b(-5),
        FieldValue::B(200),
        FieldValue::s(-300),
        FieldValue::u(60000),
        FieldValue::I(-70000),
        FieldValue::i(4_000_000_000),
        FieldValue::l(i64::MIN),
        FieldValue::f(0x7f80_0000),
        FieldValue::d(0x4000_0000_0000_0000),
        FieldValue::D(DecimalValue::new(2, -1)),
        FieldValue::S(long("héllo")),
        FieldValue::A(FieldArray::try_from(vec![FieldValue::V, FieldValue::B(1)]).unwrap()),
        FieldValue::T(1_700_000_000),
        FieldValue::F(FieldTable::new().insert(short("k"), FieldValue::u(7)).unwrap()),
        FieldValue::V,
        FieldValue::x(ByteArray::try_from(vec![0, 255, 3]).unwrap()),
    ]
}

#[test]
fn every_variant_round_trips() {
    for v in every_variant() {
        round_trip(v);
    }
    round_trip(FieldValue::A(FieldArray::try_from(every_variant()).unwrap()));
}

#[test]
fn nested_tables_round_trip() {
    let mut v = FieldValue::A(FieldArray::try_from(every_variant()).unwrap());
    for depth in 0..4 {
        let t = FieldTable::new()
            .insert(short(&format!("level{}", depth)), v)
            .unwrap()
            .insert(short("n"), FieldValue::I(depth))
            .unwrap();
        v = FieldValue::F(t);
    }
    round_trip(v);
}

#[test]
fn table_encoding_is_four_plus_declared_length() {
    let t = FieldTable::new()
        .insert(short("a"), FieldValue::S(long("xyz")))
        .unwrap()
        .insert(short("bb"), FieldValue::t(true))
        .unwrap();
    let declared = t.len_in_bytes();
    assert_eq!(declared, (1 + 1 + 1 + 4 + 3) + (1 + 2 + 1 + 1));
    let mut out = Vec::new();
    t.encode(&mut out);
    assert_eq!(out.len(), 4 + declared as usize);
    assert_eq!(&out[0..4], &declared.to_be_bytes());
}

#[test]
fn table_insert_replaces_same_name() {
    let t = FieldTable::new()
        .insert(short("a"), FieldValue::B(1))
        .unwrap()
        .insert(short("b"), FieldValue::B(2))
        .unwrap()
        .insert(short("a"), FieldValue::u(3))
        .unwrap();
    assert_eq!(t.as_slice().len(), 2);
    assert_eq!(t.as_slice()[0].1, FieldValue::u(3));
    assert_eq!(t.len_in_bytes(), (1 + 1 + 1 + 2) + (1 + 1 + 1 + 1));
}

#[test]
fn large_array_encodes() {
    let n = 1usize << 20;
    let mut items = Vec::with_capacity(n);
    for _ in 0..n {
        items.push(FieldValue::V);
    }
    let a = FieldArray::try_from(items).unwrap();
    assert_eq!(a.byte_len() as usize, n);
    let bytes = encode(&FieldValue::A(a));
    assert_eq!(bytes.len(), 1 + 4 + n);
}

#[test]
fn decode_errors() {
    assert_eq!(decode(&[b'Z', 0]), Err(AmqpError::UnknownTag));
    assert_eq!(decode(&[]), Err(AmqpError::MalformedFrame));
    assert_eq!(decode(&[b'I', 0, 0]), Err(AmqpError::MalformedFrame));
    // long string announcing more bytes than there are
    assert_eq!(decode(&[b'S', 0, 0, 0, 5, b'a']), Err(AmqpError::MalformedFrame));
    // long string that is not UTF-8
    assert_eq!(decode(&[b'S', 0, 0, 0, 1, 0xff]), Err(AmqpError::MalformedFrame));
    // array whose length cuts a value in half
    assert_eq!(decode(&[b'A', 0, 0, 0, 2, b'I', 0, 0, 0, 0]), Err(AmqpError::MalformedFrame));
    // table naming the same field twice
    let dup = [b'F', 0, 0, 0, 6, 1, b'a', b'V', 1, b'a', b'V'];
    assert_eq!(decode(&dup), Err(AmqpError::MalformedFrame));
    // unknown tag inside an array
    assert_eq!(decode(&[b'A', 0, 0, 0, 1, b'Z']), Err(AmqpError::UnknownTag));
}

#[test]
fn decode_reports_bytes_used() {
    let (v, used) = decode(&[b'B', 7, 0xaa, 0xbb]).unwrap();
    assert_eq!(v, FieldValue::B(7));
    assert_eq!(used, 2);
}
