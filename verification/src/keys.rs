//! The keys and numbers of the trees that keep a graph on disk.
use crate::value::{NodeId, PropertyValue, PropV};
use vstd::prelude::*;
use vstd::utf8::*;

verus! {

/// The eight bytes of a number, the highest first.
pub open spec fn be_bytes(x: u64) -> Seq<u8> {
    seq![
        (x / 0x100_0000_0000_0000) as u8,
        ((x / 0x1_0000_0000_0000) % 256) as u8,
        ((x / 0x100_0000_0000) % 256) as u8,
        ((x / 0x1_0000_0000) % 256) as u8,
        ((x / 0x100_0000) % 256) as u8,
        ((x / 0x1_0000) % 256) as u8,
        ((x / 0x100) % 256) as u8,
        (x % 256) as u8,
    ]
}

/// The number whose bytes are given, the highest first.
pub open spec fn be_value(s: Seq<u8>) -> int
    decreases s.len(),
{
    if s.len() == 0 {
        0
    } else {
        be_value(s.drop_last()) * 256 + s.last()
    }
}

/// The four bytes of a number, the highest first.
pub open spec fn be_bytes4(x: u32) -> Seq<u8> {
    seq![
        (x / 0x100_0000) as u8,
        ((x / 0x1_0000) % 256) as u8,
        ((x / 0x100) % 256) as u8,
        (x % 256) as u8,
    ]
}

proof fn lemma_be_value(s: Seq<u8>)
    requires
        s.len() == 8,
    ensures
        be_value(s) == s[0] * 0x100_0000_0000_0000 + s[1] * 0x1_0000_0000_0000 + s[2]
            * 0x100_0000_0000 + s[3] * 0x1_0000_0000 + s[4] * 0x100_0000 + s[5] * 0x1_0000 + s[6]
            * 0x100 + s[7],
{
    reveal_with_fuel(be_value, 9);
}

/// Dividing step by step is dividing at once.
proof fn lemma_steps(x: u64)
    ensures
        x / 0x1_0000 == (x / 0x100) / 0x100,
        x / 0x100_0000 == (x / 0x1_0000) / 0x100,
        x / 0x1_0000_0000 == (x / 0x100_0000) / 0x100,
        x / 0x100_0000_0000 == (x / 0x1_0000_0000) / 0x100,
        x / 0x1_0000_0000_0000 == (x / 0x100_0000_0000) / 0x100,
        x / 0x100_0000_0000_0000 == (x / 0x1_0000_0000_0000) / 0x100,
        x / 0x100_0000_0000_0000 < 256,
{
    assert(x / 0x1_0000 == (x / 0x100) / 0x100) by (bit_vector);
    assert(x / 0x100_0000 == (x / 0x1_0000) / 0x100) by (bit_vector);
    assert(x / 0x1_0000_0000 == (x / 0x100_0000) / 0x100) by (bit_vector);
    assert(x / 0x100_0000_0000 == (x / 0x1_0000_0000) / 0x100) by (bit_vector);
    assert(x / 0x1_0000_0000_0000 == (x / 0x100_0000_0000) / 0x100) by (bit_vector);
    assert(x / 0x100_0000_0000_0000 == (x / 0x1_0000_0000_0000) / 0x100) by (bit_vector);
    assert(x / 0x100_0000_0000_0000 < 256) by (bit_vector);
}

/// A number is made of its bytes.
proof fn lemma_parts(x: u64, q1: u64, q2: u64, q3: u64, q4: u64, q5: u64, q6: u64, q7: u64)
    requires
        q1 == x / 256,
        q2 == q1 / 256,
        q3 == q2 / 256,
        q4 == q3 / 256,
        q5 == q4 / 256,
        q6 == q5 / 256,
        q7 == q6 / 256,
    ensures
        x == q7 * 0x100_0000_0000_0000 + (q6 % 256) * 0x1_0000_0000_0000 + (q5 % 256)
            * 0x100_0000_0000 + (q4 % 256) * 0x1_0000_0000 + (q3 % 256) * 0x100_0000 + (q2 % 256)
            * 0x1_0000 + (q1 % 256) * 0x100 + x % 256,
{
    assert(x == q1 * 256 + x % 256);
    assert(q1 == q2 * 256 + q1 % 256);
    assert(q2 == q3 * 256 + q2 % 256);
    assert(q3 == q4 * 256 + q3 % 256);
    assert(q4 == q5 * 256 + q4 % 256);
    assert(q5 == q6 * 256 + q5 % 256);
    assert(q6 == q7 * 256 + q6 % 256);
}

/// A number that was written is read back.
pub proof fn lemma_written_read(x: u64)
    ensures
        be_bytes(x).len() == 8,
        be_value(be_bytes(x)) == x,
{
    lemma_be_value(be_bytes(x));
    lemma_steps(x);
    lemma_parts(
        x,
        x / 0x100,
        x / 0x1_0000,
        x / 0x100_0000,
        x / 0x1_0000_0000,
        x / 0x100_0000_0000,
        x / 0x1_0000_0000_0000,
        x / 0x100_0000_0000_0000,
    );
}

/// A number whose last byte is given.
proof fn lemma_last_byte(x: u64, q: int, b: u8)
    requires
        x == q * 256 + b,
    ensures
        x / 256 == q,
        x % 256 == b,
{
}

/// Eight bytes that were read as a number are written again.
pub proof fn lemma_read_written(s: Seq<u8>)
    requires
        s.len() == 8,
    ensures
        0 <= be_value(s) <= u64::MAX,
        be_bytes(be_value(s) as u64) == s,
{
    reveal_with_fuel(be_value, 9);
    let v1 = s[0] as int;
    let v2 = v1 * 256 + s[1];
    let v3 = v2 * 256 + s[2];
    let v4 = v3 * 256 + s[3];
    let v5 = v4 * 256 + s[4];
    let v6 = v5 * 256 + s[5];
    let v7 = v6 * 256 + s[6];
    let v8 = v7 * 256 + s[7];
    assert(be_value(s) == v8);
    let x = v8 as u64;
    lemma_steps(x);
    lemma_last_byte(x, v7, s[7]);
    lemma_last_byte(v7 as u64, v6, s[6]);
    lemma_last_byte(v6 as u64, v5, s[5]);
    lemma_last_byte(v5 as u64, v4, s[4]);
    lemma_last_byte(v4 as u64, v3, s[3]);
    lemma_last_byte(v3 as u64, v2, s[2]);
    lemma_last_byte(v2 as u64, v1, s[1]);
    assert(be_bytes(x) =~= s);
}

/// The key of a node or a relationship.
pub fn u64_key(id: u64) -> (r: [u8; 8])
    ensures
        r@ == be_bytes(id),
{
    write_u64(id)
}

/// The bytes of a number.
pub fn write_u64(v: u64) -> (r: [u8; 8])
    ensures
        r@ == be_bytes(v),
{
    let r: [u8; 8] = [
        (v / 0x100_0000_0000_0000) as u8,
        ((v / 0x1_0000_0000_0000) % 256) as u8,
        ((v / 0x100_0000_0000) % 256) as u8,
        ((v / 0x1_0000_0000) % 256) as u8,
        ((v / 0x100_0000) % 256) as u8,
        ((v / 0x1_0000) % 256) as u8,
        ((v / 0x100) % 256) as u8,
        (v % 256) as u8,
    ];
    proof {
        assert(r@ =~= be_bytes(v));
    }
    r
}

/// The number whose bytes are given; none unless there are eight of them.
pub fn read_u64(bytes: &[u8]) -> (r: Option<u64>)
    ensures
        match r {
            Some(v) => bytes@.len() == 8 && v == be_value(bytes@),
            None => bytes@.len() != 8,
        },
{
    if bytes.len() != 8 {
        return None;
    }
    proof {
        lemma_read_written(bytes@);
        lemma_be_value(bytes@);
    }
    Some(
        bytes[0] as u64 * 0x100_0000_0000_0000 + bytes[1] as u64 * 0x1_0000_0000_0000
            + bytes[2] as u64 * 0x100_0000_0000 + bytes[3] as u64 * 0x1_0000_0000
            + bytes[4] as u64 * 0x100_0000 + bytes[5] as u64 * 0x1_0000 + bytes[6] as u64 * 0x100
            + bytes[7] as u64,
    )
}

fn append_bytes(v: &mut Vec<u8>, more: &[u8])
    ensures
        final(v)@ == old(v)@ + more@,
{
    let mut i: usize = 0;
    while i < more.len()
        invariant
            i <= more.len(),
            v@ == old(v)@ + more@.take(i as int),
        decreases more.len() - i,
    {
        v.push(more[i]);
        i += 1;
        proof {
            assert(more@.take(i as int) =~= more@.take(i as int - 1).push(more@[i as int - 1]));
        }
    }
    proof {
        assert(more@.take(more@.len() as int) =~= more@);
    }
}

/// What all keys of a label begin with.
pub open spec fn label_head(label: Seq<u8>) -> Seq<u8> {
    label.push(0)
}

pub fn label_prefix(label: &str) -> (r: Vec<u8>)
    ensures
        r@ == label_head(encode_utf8(label@)),
{
    let mut p: Vec<u8> = Vec::new();
    append_bytes(&mut p, label.as_bytes());
    p.push(0);
    proof {
        assert(p@ =~= label_head(encode_utf8(label@)));
    }
    p
}

/// The key under which a label leads to a node.
pub fn label_key(label: &str, node_id: NodeId) -> (r: Vec<u8>)
    ensures
        r@ == label_head(encode_utf8(label@)) + be_bytes(node_id),
{
    let mut key = label_prefix(label);
    append_bytes(&mut key, &write_u64(node_id));
    key
}

/// The bytes of a property value: a letter for its type, and the value. A
/// text has its length before it, so that no value is the beginning of
/// another.
pub open spec fn value_bytes(v: PropV) -> Seq<u8> {
    match v {
        PropV::Str(s) => seq![115u8] + be_bytes4(encode_utf8(s).len() as u32) + encode_utf8(s),
        PropV::Int(i) => seq![105u8] + be_bytes(i as u64),
        PropV::Float(f) => seq![102u8] + be_bytes(f),
        PropV::Bool(b) => seq![98u8, if b { 1u8 } else { 0u8 }],
    }
}

pub fn prop_idx_value_bytes(val: &PropertyValue) -> (r: Vec<u8>)
    ensures
        r@ == value_bytes(val@),
{
    let mut v: Vec<u8> = Vec::new();
    match val {
        PropertyValue::String(s) => {
            let bytes = s.as_str().as_bytes();
            v.push(115);
            let n = bytes.len() as u32;
            let head: [u8; 4] = [
                (n / 0x100_0000) as u8,
                ((n / 0x1_0000) % 256) as u8,
                ((n / 0x100) % 256) as u8,
                (n % 256) as u8,
            ];
            append_bytes(&mut v, &head);
            append_bytes(&mut v, bytes);
            proof {
                assert(head@ =~= be_bytes4(n));
                assert(v@ =~= seq![115u8] + be_bytes4(n) + bytes@);
            }
        },
        PropertyValue::Int(i) => {
            v.push(105);
            append_bytes(&mut v, &write_u64(*i as u64));
            proof {
                assert(v@ =~= seq![105u8] + be_bytes(*i as u64));
            }
        },
        PropertyValue::Float(f) => {
            v.push(102);
            append_bytes(&mut v, &write_u64(*f));
            proof {
                assert(v@ =~= seq![102u8] + be_bytes(*f));
            }
        },
        PropertyValue::Bool(b) => {
            v.push(98);
            v.push(
                if *b {
                    1
                } else {
                    0
                },
            );
            proof {
                assert(v@ =~= seq![98u8, if *b { 1u8 } else { 0u8 }]);
            }
        },
    }
    v
}

/// What all keys of a property with a value begin with.
pub open spec fn prop_head(name: Seq<u8>, value: Seq<u8>) -> Seq<u8> {
    name.push(0) + value
}

pub fn prop_idx_prefix(prop_name: &str, val: &PropertyValue) -> (r: Vec<u8>)
    ensures
        r@ == prop_head(encode_utf8(prop_name@), value_bytes(val@)),
{
    let mut key = label_prefix(prop_name);
    append_bytes(&mut key, prop_idx_value_bytes(val).as_slice());
    key
}

/// The key under which a property with a value leads to a node.
pub fn prop_idx_key(prop_name: &str, val: &PropertyValue, node_id: NodeId) -> (r: Vec<u8>)
    ensures
        r@ == prop_head(encode_utf8(prop_name@), value_bytes(val@)) + be_bytes(
            node_id,
        ),
{
    let mut key = prop_idx_prefix(prop_name, val);
    append_bytes(&mut key, &write_u64(node_id));
    key
}

/// The key of a unique constraint.
pub fn constraint_key(label: &str, property: &str) -> (r: Vec<u8>)
    ensures
        r@ == label_head(encode_utf8(label@)) + encode_utf8(property@),
{
    let mut key = label_prefix(label);
    append_bytes(&mut key, property.as_bytes());
    key
}

/// The key of a constraint of another kind: a mark, two letters for the kind,
/// the label, and what the constraint says.
pub open spec fn other_constraint(a: u8, b: u8, label: Seq<u8>, rest: Seq<u8>) -> Seq<u8> {
    seq![1u8, a, b, 0u8] + label_head(label) + rest
}

fn other_constraint_key(a: u8, b: u8, label: &str, rest: &[u8]) -> (r: Vec<u8>)
    ensures
        r@ == other_constraint(a, b, encode_utf8(label@), rest@),
{
    let mut key: Vec<u8> = Vec::new();
    key.push(1);
    key.push(a);
    key.push(b);
    key.push(0);
    append_bytes(&mut key, label_prefix(label).as_slice());
    append_bytes(&mut key, rest);
    proof {
        assert(key@ =~= other_constraint(a, b, encode_utf8(label@), rest@));
    }
    key
}

/// The key of a NOT NULL constraint.
pub fn not_null_key(label: &str, property: &str) -> (r: Vec<u8>)
    ensures
        r@ == other_constraint(78, 78, encode_utf8(label@), encode_utf8(property@)),
{
    other_constraint_key(78, 78, label, property.as_bytes())
}

/// The key of a NODE KEY constraint; the properties stand behind each other,
/// with commas between them.
pub fn node_key_key(label: &str, properties: &str) -> (r: Vec<u8>)
    ensures
        r@ == other_constraint(78, 75, encode_utf8(label@), encode_utf8(properties@)),
{
    other_constraint_key(78, 75, label, properties.as_bytes())
}

/// The key of a PROPERTY TYPE constraint.
pub fn property_type_key(label: &str, property: &str, kind: &str) -> (r: Vec<u8>)
    ensures
        r@ == other_constraint(
            80,
            84,
            encode_utf8(label@),
            label_head(encode_utf8(property@)) + encode_utf8(kind@),
        ),
{
    let mut rest = label_prefix(property);
    append_bytes(&mut rest, kind.as_bytes());
    other_constraint_key(80, 84, label, rest.as_slice())
}

/// The identifier at the end of a key, behind a beginning of some length.
pub fn key_id(key: &[u8], from: usize) -> (r: Option<u64>)
    ensures
        match r {
            Some(v) => key@.len() == from + 8 && v == be_value(key@.skip(from as int)),
            None => key@.len() != from + 8,
        },
{
    if key.len() < from || key.len() - from != 8 {
        return None;
    }
    let mut last: Vec<u8> = Vec::new();
    let mut i: usize = from;
    while i < key.len()
        invariant
            from <= i <= key.len(),
            last@ == key@.subrange(from as int, i as int),
        decreases key.len() - i,
    {
        last.push(key[i]);
        i += 1;
        proof {
            assert(last@ =~= key@.subrange(from as int, i as int));
        }
    }
    proof {
        assert(last@ =~= key@.skip(from as int));
    }
    read_u64(last.as_slice())
}

/// The identifier that a label key leads to is read back from it.
pub proof fn lemma_label_key(label: Seq<u8>, id: u64)
    ensures
        (label_head(label) + be_bytes(id)).len() == label_head(label).len() + 8,
        be_value((label_head(label) + be_bytes(id)).skip(label_head(label).len() as int)) == id,
{
    lemma_written_read(id);
    assert((label_head(label) + be_bytes(id)).skip(label_head(label).len() as int) =~= be_bytes(
        id,
    ));
}

/// The identifier that a property key leads to is read back from its last
/// eight bytes.
pub proof fn lemma_prop_key(name: Seq<u8>, value: Seq<u8>, id: u64)
    ensures
        be_value((prop_head(name, value) + be_bytes(id)).skip(prop_head(name, value).len() as int))
            == id,
{
    lemma_written_read(id);
    assert((prop_head(name, value) + be_bytes(id)).skip(prop_head(name, value).len() as int)
        =~= be_bytes(id));
}

/// Numbers in order have keys in order: the first byte in which two keys
/// differ is smaller in the key of the smaller number.
pub proof fn lemma_keys_in_order(a: u64, b: u64)
    requires
        a < b,
    ensures
        exists|i: int|
            0 <= i < 8 && be_bytes(a).take(i) == be_bytes(b).take(i) && #[trigger] be_bytes(a)[i]
                < be_bytes(b)[i],
{
    let s = be_bytes(a);
    let t = be_bytes(b);
    lemma_written_read(a);
    lemma_written_read(b);
    lemma_be_value(s);
    lemma_be_value(t);
    let i: int = if s[0] != t[0] {
        0
    } else if s[1] != t[1] {
        1
    } else if s[2] != t[2] {
        2
    } else if s[3] != t[3] {
        3
    } else if s[4] != t[4] {
        4
    } else if s[5] != t[5] {
        5
    } else if s[6] != t[6] {
        6
    } else {
        7
    };
    assert(s.take(i) =~= t.take(i));
    assert(s[i] < t[i]);
}

} // verus!
