//! Text-tree codec: converts IR values to and from a self-describing tree
//! of JSON's value forms (null, boolean, number, string, array, object).
//!
//! Variants the tree cannot represent natively are written as objects with
//! a `$type` discriminator: binary blobs and extension payloads carry their
//! bytes as base64 text, timestamps carry seconds and nanoseconds, and
//! bundles carry a timetag plus a list of wrapped elements. Decoding is
//! permissive: an object without a recognized `$type` string is an ordinary
//! map, and malformed fields inside a recognized tag fall back to defaults
//! rather than failing.

use vstd::prelude::*;

use crate::b64::{b64_decode, b64_encode, b64_of, b64_parse};
use crate::ir::{entries_view, elems_view, lemma_elems_view, vals_view, IrBundle, IrBundleElement, IrBundleS, IrElemS, IrTimestamp, IrTimetag, IrValS, IrValue};
use crate::strings::str_eq;
use vstd::string::StringExecFns;

verus! {

/// A node of the self-describing tree: JSON's value forms, with numbers
/// split by how they are held (signed, unsigned, or floating-point bits).
#[derive(Debug, PartialEq)]
pub enum JsonValue {
    Null,
    Bool(bool),
    /// A number holding a signed integer.
    Int(i64),
    /// A number holding an unsigned integer.
    UInt(u64),
    /// A number holding an IEEE-754 double, stored as its raw bit pattern.
    Float(u64),
    Str(String),
    Array(Vec<JsonValue>),
    /// Ordered key/value entries; duplicates are kept.
    Object(Vec<(String, JsonValue)>),
}

/// Mathematical model of a [`JsonValue`].
pub ghost enum JsonS {
    Null,
    Bool(bool),
    Int(i64),
    UInt(u64),
    Float(u64),
    Str(Seq<char>),
    Array(Seq<JsonS>),
    Object(Seq<(Seq<char>, JsonS)>),
}

/// Model of a single tree node.
pub open spec fn json_view(j: JsonValue) -> JsonS
    decreases j, 1int,
    via json_view_dec
{
    match j {
        JsonValue::Null => JsonS::Null,
        JsonValue::Bool(b) => JsonS::Bool(b),
        JsonValue::Int(i) => JsonS::Int(i),
        JsonValue::UInt(u) => JsonS::UInt(u),
        JsonValue::Float(bits) => JsonS::Float(bits),
        JsonValue::Str(s) => JsonS::Str(s@),
        JsonValue::Array(xs) => JsonS::Array(jsons_view(xs@)),
        JsonValue::Object(es) => JsonS::Object(jentries_view(es@)),
    }
}

#[via_fn]
proof fn json_view_dec(j: JsonValue) {
    match j {
        JsonValue::Array(xs) => {
            assert(decreases_to!(j => xs));
            assert(decreases_to!(xs => xs@));
        },
        JsonValue::Object(es) => {
            assert(decreases_to!(j => es));
            assert(decreases_to!(es => es@));
        },
        _ => {},
    }
}

/// Model of a list of tree nodes.
pub open spec fn jsons_view(s: Seq<JsonValue>) -> Seq<JsonS>
    decreases s, 0int,
{
    if s.len() == 0 {
        Seq::empty()
    } else {
        seq![json_view(s[0])] + jsons_view(s.subrange(1, s.len() as int))
    }
}

/// A node list's model has one entry per node, the node's own model.
pub broadcast proof fn lemma_jsons_view(s: Seq<JsonValue>)
    ensures
        #![trigger jsons_view(s)]
        jsons_view(s).len() == s.len(),
        forall|i: int| 0 <= i < s.len() ==> jsons_view(s)[i] == json_view(s[i]),
    decreases s.len(),
{
    if s.len() > 0 {
        lemma_jsons_view(s.subrange(1, s.len() as int));
    }
}

/// Model of a list of object entries.
pub open spec fn jentries_view(s: Seq<(String, JsonValue)>) -> Seq<(Seq<char>, JsonS)>
    decreases s, 0int,
    via jentries_view_dec
{
    if s.len() == 0 {
        Seq::empty()
    } else {
        seq![(s[0].0@, json_view(s[0].1))] + jentries_view(s.subrange(1, s.len() as int))
    }
}

#[via_fn]
proof fn jentries_view_dec(s: Seq<(String, JsonValue)>) {
    if s.len() > 0 {
        assert(decreases_to!(s => s[0]));
        assert(decreases_to!(s[0] => s[0].1));
    }
}

/// An entry list's model pairs each key's characters with the node's model.
pub broadcast proof fn lemma_jentries_view(s: Seq<(String, JsonValue)>)
    ensures
        #![trigger jentries_view(s)]
        jentries_view(s).len() == s.len(),
        forall|i: int| 0 <= i < s.len() ==> jentries_view(s)[i] == (s[i].0@, json_view(s[i].1)),
    decreases s.len(),
{
    if s.len() > 0 {
        lemma_jentries_view(s.subrange(1, s.len() as int));
    }
}

impl View for JsonValue {
    type V = JsonS;

    open spec fn view(&self) -> JsonS {
        json_view(*self)
    }
}

/// Whether a bit pattern is a finite IEEE-754 double (exponent field not
/// all ones).
pub open spec fn f64_bits_finite(bits: u64) -> bool {
    (bits >> 52) & 0x7FF != 0x7FF
}

/// The text-tree encoding of a value.
pub open spec fn ir_to_json_spec(v: IrValS) -> JsonS
    decreases v, 0int,
{
    match v {
        IrValS::Null => JsonS::Null,
        IrValS::Bool(b) => JsonS::Bool(b),
        IrValS::Integer(i) => JsonS::Int(i),
        IrValS::Float(bits) => if f64_bits_finite(bits) {
            JsonS::Float(bits)
        } else {
            // The tree's number form cannot hold a NaN or infinity.
            JsonS::Null
        },
        IrValS::Str(s) => JsonS::Str(s),
        IrValS::Binary(b) => JsonS::Object(
            seq![("$type"@, JsonS::Str("binary"@)), ("data"@, JsonS::Str(b64_of(b)))],
        ),
        IrValS::Array(xs) => JsonS::Array(irvals_to_json_spec(xs)),
        IrValS::Mapping(es) => JsonS::Object(irentries_to_json_spec(es)),
        IrValS::Timestamp(sec, ns) => JsonS::Object(
            seq![
                ("$type"@, JsonS::Str("timestamp"@)),
                ("seconds"@, JsonS::Int(sec)),
                ("nanos"@, JsonS::UInt(ns as u64)),
            ],
        ),
        IrValS::Ext(id, data) => JsonS::Object(
            seq![
                ("$type"@, JsonS::Str("ext"@)),
                ("ext"@, JsonS::Int(id as i64)),
                ("data"@, JsonS::Str(b64_of(data))),
            ],
        ),
        IrValS::Bundle(b) => bundle_to_json_spec(b),
    }
}

/// The text-tree encoding of a bundle: its tag, timetag, and wrapped
/// elements.
pub open spec fn bundle_to_json_spec(b: IrBundleS) -> JsonS
    decreases b, 2int,
    via bundle_to_json_spec_dec
{
    JsonS::Object(
        seq![
            ("$type"@, JsonS::Str("bundle"@)),
            ("timetag"@, JsonS::UInt(b.timetag)),
            ("elements"@, JsonS::Array(irelems_to_json_spec(b.elements))),
        ],
    )
}

#[via_fn]
proof fn bundle_to_json_spec_dec(b: IrBundleS) {
    assert(decreases_to!(b => b.elements));
}

/// The text-tree encoding of a list of values.
pub open spec fn irvals_to_json_spec(s: Seq<IrValS>) -> Seq<JsonS>
    decreases s, 1int,
{
    if s.len() == 0 {
        Seq::empty()
    } else {
        seq![ir_to_json_spec(s[0])] + irvals_to_json_spec(s.subrange(1, s.len() as int))
    }
}

/// The text-tree encoding of a list of map entries.
pub open spec fn irentries_to_json_spec(s: Seq<(Seq<char>, IrValS)>) -> Seq<(Seq<char>, JsonS)>
    decreases s, 1int,
    via irentries_to_json_spec_dec
{
    if s.len() == 0 {
        Seq::empty()
    } else {
        seq![(s[0].0, ir_to_json_spec(s[0].1))] + irentries_to_json_spec(
            s.subrange(1, s.len() as int),
        )
    }
}

#[via_fn]
proof fn irentries_to_json_spec_dec(s: Seq<(Seq<char>, IrValS)>) {
    if s.len() > 0 {
        assert(decreases_to!(s => s[0]));
        assert(decreases_to!(s[0] => s[0].1));
    }
}

/// The text-tree encoding of a list of bundle elements, each wrapped in an
/// object naming its kind.
pub open spec fn irelems_to_json_spec(s: Seq<IrElemS>) -> Seq<JsonS>
    decreases s, 1int,
{
    if s.len() == 0 {
        Seq::empty()
    } else {
        seq![irelem_to_json_spec(s[0])] + irelems_to_json_spec(s.subrange(1, s.len() as int))
    }
}

/// The text-tree encoding of one bundle element.
pub open spec fn irelem_to_json_spec(e: IrElemS) -> JsonS
    decreases e, 3int,
{
    match e {
        IrElemS::Message(m) => JsonS::Object(
            seq![("type"@, JsonS::Str("message"@)), ("data"@, ir_to_json_spec(m))],
        ),
        IrElemS::Bundle(b) => JsonS::Object(
            seq![("type"@, JsonS::Str("bundle"@)), ("data"@, bundle_to_json_spec(b))],
        ),
    }
}

/// The first value stored under a key, if any; later duplicates are
/// shadowed.
pub open spec fn obj_get_spec(es: Seq<(Seq<char>, JsonS)>, key: Seq<char>) -> Option<JsonS>
    decreases es.len(),
{
    if es.len() == 0 {
        None
    } else if es[0].0 == key {
        Some(es[0].1)
    } else {
        obj_get_spec(es.subrange(1, es.len() as int), key)
    }
}

/// A found value is one of the entries' values.
proof fn lemma_obj_get_mem(es: Seq<(Seq<char>, JsonS)>, key: Seq<char>)
    ensures
        obj_get_spec(es, key) matches Some(v) ==> exists|i: int|
            0 <= i < es.len() && #[trigger] es[i].1 == v,
    decreases es.len(),
{
    if es.len() > 0 && es[0].0 != key {
        let rest = es.subrange(1, es.len() as int);
        lemma_obj_get_mem(rest, key);
        match obj_get_spec(es, key) {
            Some(v) => {
                let i = choose|i: int| 0 <= i < rest.len() && #[trigger] rest[i].1 == v;
                assert(es[i + 1].1 == v);
            },
            None => {},
        }
    }
}

/// The signed integer a number node holds: a signed holder directly, an
/// unsigned holder only when it fits.
pub open spec fn json_as_i64(j: JsonS) -> Option<i64> {
    match j {
        JsonS::Int(i) => Some(i),
        JsonS::UInt(u) => if u <= 0x7FFF_FFFF_FFFF_FFFF {
            Some(u as i64)
        } else {
            None
        },
        _ => None,
    }
}

/// The unsigned integer a number node holds: an unsigned holder
/// directly, a signed holder only when non-negative.
pub open spec fn json_as_u64(j: JsonS) -> Option<u64> {
    match j {
        JsonS::UInt(u) => Some(u),
        JsonS::Int(i) => if i >= 0 {
            Some(i as u64)
        } else {
            None
        },
        _ => None,
    }
}

/// A tagged object's signed-integer field, with a default for a missing
/// or malformed field.
pub open spec fn tag_field_i64(
    es: Seq<(Seq<char>, JsonS)>,
    key: Seq<char>,
    default: i64,
) -> i64 {
    match obj_get_spec(es, key) {
        Some(j) => match json_as_i64(j) {
            Some(i) => i,
            None => default,
        },
        None => default,
    }
}

/// A tagged object's unsigned-integer field, with a default for a missing
/// or malformed field.
pub open spec fn tag_field_u64(
    es: Seq<(Seq<char>, JsonS)>,
    key: Seq<char>,
    default: u64,
) -> u64 {
    match obj_get_spec(es, key) {
        Some(j) => match json_as_u64(j) {
            Some(u) => u,
            None => default,
        },
        None => default,
    }
}

/// A tagged object's base64 `data` field; anything missing or malformed
/// yields no bytes.
pub open spec fn tag_field_data(es: Seq<(Seq<char>, JsonS)>) -> Seq<u8> {
    match obj_get_spec(es, "data"@) {
        Some(JsonS::Str(s)) => match b64_parse(s) {
            Some(d) => d,
            None => Seq::empty(),
        },
        _ => Seq::empty(),
    }
}

/// The bit pattern of the IEEE-754 double nearest (ties to even) to an
/// unsigned integer too large for a signed one; such a value is at least
/// 2^63, so its exponent is 63 or, after rounding up, 64.
pub open spec fn f64_bits_of_u64_big(u: u64) -> u64
    recommends
        u > 0x7FFF_FFFF_FFFF_FFFF,
{
    let keep = (u >> 11) & 0xF_FFFF_FFFF_FFFF;
    let low = u & 0x7FF;
    let round_up = low > 0x400 || (low == 0x400 && keep & 1 == 1);
    if round_up {
        if keep == 0xF_FFFF_FFFF_FFFF {
            (1087u64 << 52) as u64
        } else {
            ((1086u64 << 52) | (keep + 1) as u64) as u64
        }
    } else {
        ((1086u64 << 52) | keep) as u64
    }
}

/// The value a tree node decodes to. Objects are interpreted as tagged
/// special values only when they carry a recognized `$type` string; any
/// other object decodes as a plain map.
pub open spec fn json_to_ir_spec(j: JsonS) -> IrValS
    decreases j, 0int,
    via json_to_ir_spec_dec
{
    match j {
        JsonS::Null => IrValS::Null,
        JsonS::Bool(b) => IrValS::Bool(b),
        JsonS::Int(i) => IrValS::Integer(i),
        JsonS::UInt(u) => if u <= 0x7FFF_FFFF_FFFF_FFFF {
            IrValS::Integer(u as i64)
        } else {
            IrValS::Float(f64_bits_of_u64_big(u))
        },
        JsonS::Float(bits) => IrValS::Float(bits),
        JsonS::Str(s) => IrValS::Str(s),
        JsonS::Array(xs) => IrValS::Array(jsons_to_ir_spec(xs)),
        JsonS::Object(es) => match obj_get_spec(es, "$type"@) {
            Some(JsonS::Str(tag)) => if tag == "timestamp"@ {
                IrValS::Timestamp(
                    tag_field_i64(es, "seconds"@, 0),
                    tag_field_u64(es, "nanos"@, 0) as u32,
                )
            } else if tag == "binary"@ {
                IrValS::Binary(tag_field_data(es))
            } else if tag == "ext"@ {
                IrValS::Ext(tag_field_i64(es, "ext"@, 0) as i8, tag_field_data(es))
            } else if tag == "bundle"@ {
                IrValS::Bundle(
                    IrBundleS {
                        timetag: tag_field_u64(es, "timetag"@, 1),
                        elements: match obj_get_spec(es, "elements"@) {
                            Some(JsonS::Array(xs)) => jelems_to_ir_spec(xs),
                            _ => Seq::empty(),
                        },
                    },
                )
            } else {
                IrValS::Mapping(jentries_to_ir_spec(es))
            },
            _ => IrValS::Mapping(jentries_to_ir_spec(es)),
        },
    }
}

#[via_fn]
proof fn json_to_ir_spec_dec(j: JsonS) {
    match j {
        JsonS::Object(es) => {
            assert(decreases_to!(j => es));
            lemma_obj_get_mem(es, "elements"@);
            match obj_get_spec(es, "elements"@) {
                Some(v) => {
                    let i = choose|i: int| 0 <= i < es.len() && #[trigger] es[i].1 == v;
                    assert(decreases_to!(es => es[i]));
                    assert(decreases_to!(es[i] => es[i].1));
                    if v is Array {
                        assert(decreases_to!(v => v->Array_0));
                    }
                },
                None => {},
            }
        },
        _ => {},
    }
}

/// The values a list of tree nodes decodes to.
pub open spec fn jsons_to_ir_spec(s: Seq<JsonS>) -> Seq<IrValS>
    decreases s, 1int,
{
    if s.len() == 0 {
        Seq::empty()
    } else {
        seq![json_to_ir_spec(s[0])] + jsons_to_ir_spec(s.subrange(1, s.len() as int))
    }
}

/// The map entries a list of object entries decodes to.
pub open spec fn jentries_to_ir_spec(s: Seq<(Seq<char>, JsonS)>) -> Seq<(Seq<char>, IrValS)>
    decreases s, 1int,
    via jentries_to_ir_spec_dec
{
    if s.len() == 0 {
        Seq::empty()
    } else {
        seq![(s[0].0, json_to_ir_spec(s[0].1))] + jentries_to_ir_spec(
            s.subrange(1, s.len() as int),
        )
    }
}

#[via_fn]
proof fn jentries_to_ir_spec_dec(s: Seq<(Seq<char>, JsonS)>) {
    if s.len() > 0 {
        assert(decreases_to!(s => s[0]));
        assert(decreases_to!(s[0] => s[0].1));
    }
}

/// The bundle elements a list of wrapped tree nodes decodes to.
pub open spec fn jelems_to_ir_spec(s: Seq<JsonS>) -> Seq<IrElemS>
    decreases s, 1int,
{
    if s.len() == 0 {
        Seq::empty()
    } else {
        seq![jelem_to_ir_spec(s[0])] + jelems_to_ir_spec(s.subrange(1, s.len() as int))
    }
}

/// The bundle element a wrapped tree node decodes to: an object naming a
/// recognized kind with a `data` field is unwrapped; anything else is
/// taken whole as a message.
pub open spec fn jelem_to_ir_spec(j: JsonS) -> IrElemS
    decreases j, 2int,
    via jelem_to_ir_spec_dec
{
    match j {
        JsonS::Object(es) => match obj_get_spec(es, "type"@) {
            Some(JsonS::Str(t)) => if t == "message"@ {
                match obj_get_spec(es, "data"@) {
                    Some(d) => IrElemS::Message(json_to_ir_spec(d)),
                    None => IrElemS::Message(json_to_ir_spec(j)),
                }
            } else if t == "bundle"@ {
                match obj_get_spec(es, "data"@) {
                    Some(d) => match json_to_ir_spec(d) {
                        IrValS::Bundle(b) => IrElemS::Bundle(b),
                        _ => IrElemS::Message(json_to_ir_spec(j)),
                    },
                    None => IrElemS::Message(json_to_ir_spec(j)),
                }
            } else {
                IrElemS::Message(json_to_ir_spec(j))
            },
            _ => IrElemS::Message(json_to_ir_spec(j)),
        },
        _ => IrElemS::Message(json_to_ir_spec(j)),
    }
}

#[via_fn]
proof fn jelem_to_ir_spec_dec(j: JsonS) {
    match j {
        JsonS::Object(es) => {
            assert(decreases_to!(j => es));
            lemma_obj_get_mem(es, "data"@);
            match obj_get_spec(es, "data"@) {
                Some(v) => {
                    let i = choose|i: int| 0 <= i < es.len() && #[trigger] es[i].1 == v;
                    assert(decreases_to!(es => es[i]));
                    assert(decreases_to!(es[i] => es[i].1));
                },
                None => {},
            }
        },
        _ => {},
    }
}

/// An encoded value list has one node per value.
pub broadcast proof fn lemma_irvals_to_json(s: Seq<IrValS>)
    ensures
        #![trigger irvals_to_json_spec(s)]
        irvals_to_json_spec(s).len() == s.len(),
        forall|i: int| 0 <= i < s.len() ==> irvals_to_json_spec(s)[i] == ir_to_json_spec(s[i]),
    decreases s.len(),
{
    if s.len() > 0 {
        lemma_irvals_to_json(s.subrange(1, s.len() as int));
    }
}

/// An encoded entry list keeps each key beside its encoded value.
pub broadcast proof fn lemma_irentries_to_json(s: Seq<(Seq<char>, IrValS)>)
    ensures
        #![trigger irentries_to_json_spec(s)]
        irentries_to_json_spec(s).len() == s.len(),
        forall|i: int|
            0 <= i < s.len() ==> irentries_to_json_spec(s)[i] == (
                s[i].0,
                ir_to_json_spec(s[i].1),
            ),
    decreases s.len(),
{
    if s.len() > 0 {
        lemma_irentries_to_json(s.subrange(1, s.len() as int));
    }
}

/// An encoded element list has one wrapped node per element.
pub broadcast proof fn lemma_irelems_to_json(s: Seq<IrElemS>)
    ensures
        #![trigger irelems_to_json_spec(s)]
        irelems_to_json_spec(s).len() == s.len(),
        forall|i: int| 0 <= i < s.len() ==> irelems_to_json_spec(s)[i] == irelem_to_json_spec(s[i]),
    decreases s.len(),
{
    if s.len() > 0 {
        lemma_irelems_to_json(s.subrange(1, s.len() as int));
    }
}

/// A decoded node list has one value per node.
pub broadcast proof fn lemma_jsons_to_ir(s: Seq<JsonS>)
    ensures
        #![trigger jsons_to_ir_spec(s)]
        jsons_to_ir_spec(s).len() == s.len(),
        forall|i: int| 0 <= i < s.len() ==> jsons_to_ir_spec(s)[i] == json_to_ir_spec(s[i]),
    decreases s.len(),
{
    if s.len() > 0 {
        lemma_jsons_to_ir(s.subrange(1, s.len() as int));
    }
}

/// A decoded entry list keeps each key beside its decoded value.
pub broadcast proof fn lemma_jentries_to_ir(s: Seq<(Seq<char>, JsonS)>)
    ensures
        #![trigger jentries_to_ir_spec(s)]
        jentries_to_ir_spec(s).len() == s.len(),
        forall|i: int|
            0 <= i < s.len() ==> jentries_to_ir_spec(s)[i] == (s[i].0, json_to_ir_spec(s[i].1)),
    decreases s.len(),
{
    if s.len() > 0 {
        lemma_jentries_to_ir(s.subrange(1, s.len() as int));
    }
}

/// A decoded element list has one element per wrapped node.
pub broadcast proof fn lemma_jelems_to_ir(s: Seq<JsonS>)
    ensures
        #![trigger jelems_to_ir_spec(s)]
        jelems_to_ir_spec(s).len() == s.len(),
        forall|i: int| 0 <= i < s.len() ==> jelems_to_ir_spec(s)[i] == jelem_to_ir_spec(s[i]),
    decreases s.len(),
{
    if s.len() > 0 {
        lemma_jelems_to_ir(s.subrange(1, s.len() as int));
    }
}

/// Converts a value to the text tree.
#[verifier::loop_isolation(false)]
pub fn to_json(v: &IrValue) -> (r: JsonValue)
    ensures
        r@ == ir_to_json_spec(v@),
    decreases *v, 0int,
{
    broadcast use lemma_jsons_view, lemma_jentries_view, lemma_irvals_to_json,
        lemma_irentries_to_json, crate::ir::lemma_vals_view, crate::ir::lemma_entries_view;

    match v {
        IrValue::Null => JsonValue::Null,
        IrValue::Bool(b) => JsonValue::Bool(*b),
        IrValue::Integer(i) => JsonValue::Int(*i),
        IrValue::Float(bits) => {
            if (*bits >> 52) & 0x7FF != 0x7FF {
                JsonValue::Float(*bits)
            } else {
                JsonValue::Null
            }
        },
        IrValue::String(s) => JsonValue::Str(s.clone()),
        IrValue::Binary(b) => {
            let mut es: Vec<(String, JsonValue)> = Vec::new();
            es.push((String::from_str("$type"), JsonValue::Str(String::from_str("binary"))));
            es.push((String::from_str("data"), JsonValue::Str(b64_encode(b.as_slice()))));
            proof {
                assert(jentries_view(es@) =~= seq![
                    ("$type"@, JsonS::Str("binary"@)),
                    ("data"@, JsonS::Str(b64_of(b@))),
                ]);
            }
            JsonValue::Object(es)
        },
        IrValue::Array(xs) => {
            let mut out: Vec<JsonValue> = Vec::new();
            let mut i: usize = 0;
            while i < xs.len()
                invariant
                    i <= xs@.len(),
                    out@.len() == i,
                    forall|k: int| 0 <= k < i ==> out@[k]@ == ir_to_json_spec(xs@[k]@),
                decreases xs@.len() - i,
            {
                proof {
                    assert(decreases_to!(*v => xs@[i as int]));
                }
                out.push(to_json(&xs[i]));
                i = i + 1;
            }
            proof {
                assert(jsons_view(out@) =~= irvals_to_json_spec(vals_view(xs@)));
            }
            JsonValue::Array(out)
        },
        IrValue::Mapping(entries) => {
            let mut out: Vec<(String, JsonValue)> = Vec::new();
            let mut i: usize = 0;
            while i < entries.len()
                invariant
                    i <= entries@.len(),
                    out@.len() == i,
                    forall|k: int|
                        0 <= k < i ==> out@[k].0@ == entries@[k].0@ && out@[k].1@
                            == ir_to_json_spec(entries@[k].1@),
                decreases entries@.len() - i,
            {
                proof {
                    assert(decreases_to!(*v => entries@[i as int].1));
                }
                let entry = &entries[i];
                out.push((entry.0.clone(), to_json(&entry.1)));
                i = i + 1;
            }
            proof {
                assert(jentries_view(out@) =~= irentries_to_json_spec(entries_view(entries@)));
            }
            JsonValue::Object(out)
        },
        IrValue::Timestamp(ts) => {
            let mut es: Vec<(String, JsonValue)> = Vec::new();
            es.push((String::from_str("$type"), JsonValue::Str(String::from_str("timestamp"))));
            es.push((String::from_str("seconds"), JsonValue::Int(ts.seconds)));
            es.push((String::from_str("nanos"), JsonValue::UInt(ts.nanos as u64)));
            proof {
                assert(jentries_view(es@) =~= seq![
                    ("$type"@, JsonS::Str("timestamp"@)),
                    ("seconds"@, JsonS::Int(ts.seconds)),
                    ("nanos"@, JsonS::UInt(ts.nanos as u64)),
                ]);
            }
            JsonValue::Object(es)
        },
        IrValue::Ext { type_id, data } => {
            let mut es: Vec<(String, JsonValue)> = Vec::new();
            es.push((String::from_str("$type"), JsonValue::Str(String::from_str("ext"))));
            es.push((String::from_str("ext"), JsonValue::Int(*type_id as i64)));
            es.push((String::from_str("data"), JsonValue::Str(b64_encode(data.as_slice()))));
            proof {
                assert(jentries_view(es@) =~= seq![
                    ("$type"@, JsonS::Str("ext"@)),
                    ("ext"@, JsonS::Int(*type_id as i64)),
                    ("data"@, JsonS::Str(b64_of(data@))),
                ]);
            }
            JsonValue::Object(es)
        },
        IrValue::Bundle(b) => bundle_to_json(b),
    }
}

/// Converts a bundle to its tagged object form.
#[verifier::loop_isolation(false)]
fn bundle_to_json(b: &IrBundle) -> (r: JsonValue)
    ensures
        r@ == bundle_to_json_spec(b@),
    decreases *b, 2int,
{
    broadcast use lemma_elems_view, lemma_irelems_to_json, lemma_jsons_view, lemma_jentries_view;

    let mut elems: Vec<JsonValue> = Vec::new();
    let mut i: usize = 0;
    while i < b.elements.len()
        invariant
            i <= b.elements@.len(),
            elems@.len() == i,
            forall|k: int| 0 <= k < i ==> elems@[k]@ == irelem_to_json_spec(b.elements@[k]@),
        decreases b.elements@.len() - i,
    {
        proof {
            assert(decreases_to!(*b => b.elements@[i as int]));
        }
        elems.push(elem_to_json(&b.elements[i]));
        i = i + 1;
    }
    proof {
        assert(jsons_view(elems@) =~= irelems_to_json_spec(elems_view(b.elements@)));
    }
    let mut es: Vec<(String, JsonValue)> = Vec::new();
    es.push((String::from_str("$type"), JsonValue::Str(String::from_str("bundle"))));
    es.push((String::from_str("timetag"), JsonValue::UInt(b.timetag.value)));
    es.push((String::from_str("elements"), JsonValue::Array(elems)));
    proof {
        assert(jentries_view(es@) =~= seq![
            ("$type"@, JsonS::Str("bundle"@)),
            ("timetag"@, JsonS::UInt(b@.timetag)),
            ("elements"@, JsonS::Array(irelems_to_json_spec(b@.elements))),
        ]);
    }
    JsonValue::Object(es)
}

/// Converts one bundle element to its wrapped object form.
fn elem_to_json(e: &IrBundleElement) -> (r: JsonValue)
    ensures
        r@ == irelem_to_json_spec(e@),
    decreases *e, 3int,
{
    broadcast use lemma_jentries_view;

    match e {
        IrBundleElement::Message(m) => {
            let mut es: Vec<(String, JsonValue)> = Vec::new();
            es.push((String::from_str("type"), JsonValue::Str(String::from_str("message"))));
            es.push((String::from_str("data"), to_json(m)));
            proof {
                assert(jentries_view(es@) =~= seq![
                    ("type"@, JsonS::Str("message"@)),
                    ("data"@, ir_to_json_spec(m@)),
                ]);
            }
            JsonValue::Object(es)
        },
        IrBundleElement::Bundle(b) => {
            let mut es: Vec<(String, JsonValue)> = Vec::new();
            es.push((String::from_str("type"), JsonValue::Str(String::from_str("bundle"))));
            es.push((String::from_str("data"), bundle_to_json(b)));
            proof {
                assert(jentries_view(es@) =~= seq![
                    ("type"@, JsonS::Str("bundle"@)),
                    ("data"@, bundle_to_json_spec(b@)),
                ]);
            }
            JsonValue::Object(es)
        },
    }
}

/// Finds the first entry stored under a key.
#[verifier::loop_isolation(false)]
fn obj_get<'a>(entries: &'a Vec<(String, JsonValue)>, key: &str) -> (r: Option<&'a JsonValue>)
    ensures
        match obj_get_spec(jentries_view(entries@), key@) {
            Some(jv) => r matches Some(p) && p@ == jv && exists|i: int|
                0 <= i < entries@.len() && *p == #[trigger] entries@[i].1,
            None => r is None,
        },
{
    broadcast use lemma_jentries_view;

    let ghost full = jentries_view(entries@);
    let mut i: usize = 0;
    proof {
        assert(full.subrange(0, full.len() as int) =~= full);
    }
    while i < entries.len()
        invariant
            i <= entries@.len(),
            obj_get_spec(full, key@) == obj_get_spec(
                full.subrange(i as int, full.len() as int),
                key@,
            ),
        decreases entries@.len() - i,
    {
        let ghost rest = full.subrange(i as int, full.len() as int);
        if str_eq(entries[i].0.as_str(), key) {
            proof {
                assert(rest[0] == full[i as int]);
            }
            return Some(&entries[i].1);
        }
        proof {
            assert(rest.subrange(1, rest.len() as int) =~= full.subrange(
                i + 1 as int,
                full.len() as int,
            ));
        }
        i = i + 1;
    }
    proof {
        assert(full.subrange(i as int, full.len() as int) =~= Seq::<(Seq<char>, JsonS)>::empty());
    }
    None
}

/// The signed integer a number node holds.
fn json_i64(j: &JsonValue) -> (r: Option<i64>)
    ensures
        r == json_as_i64(j@),
{
    match j {
        JsonValue::Int(i) => Some(*i),
        JsonValue::UInt(u) => {
            if *u <= 0x7FFF_FFFF_FFFF_FFFF {
                Some(*u as i64)
            } else {
                None
            }
        },
        _ => None,
    }
}

/// The unsigned integer a number node holds.
fn json_u64(j: &JsonValue) -> (r: Option<u64>)
    ensures
        r == json_as_u64(j@),
{
    match j {
        JsonValue::UInt(u) => Some(*u),
        JsonValue::Int(i) => {
            if *i >= 0 {
                Some(*i as u64)
            } else {
                None
            }
        },
        _ => None,
    }
}

/// A tagged object's signed-integer field, with a default.
fn field_i64(entries: &Vec<(String, JsonValue)>, key: &str, default: i64) -> (r: i64)
    ensures
        r == tag_field_i64(jentries_view(entries@), key@, default),
{
    match obj_get(entries, key) {
        Some(j) => match json_i64(j) {
            Some(i) => i,
            None => default,
        },
        None => default,
    }
}

/// A tagged object's unsigned-integer field, with a default.
fn field_u64(entries: &Vec<(String, JsonValue)>, key: &str, default: u64) -> (r: u64)
    ensures
        r == tag_field_u64(jentries_view(entries@), key@, default),
{
    match obj_get(entries, key) {
        Some(j) => match json_u64(j) {
            Some(u) => u,
            None => default,
        },
        None => default,
    }
}

/// A tagged object's base64 `data` field; missing or malformed data
/// yields no bytes.
fn field_data(entries: &Vec<(String, JsonValue)>) -> (r: Vec<u8>)
    ensures
        r@ == tag_field_data(jentries_view(entries@)),
{
    match obj_get(entries, "data") {
        Some(JsonValue::Str(s)) => match b64_decode(s.as_str()) {
            Some(d) => d,
            None => Vec::new(),
        },
        _ => Vec::new(),
    }
}

/// The bit pattern of the double nearest to an unsigned integer above the
/// signed range.
fn f64_bits_of_big(u: u64) -> (r: u64)
    requires
        u > 0x7FFF_FFFF_FFFF_FFFF,
    ensures
        r == f64_bits_of_u64_big(u),
{
    let keep = (u >> 11) & 0xF_FFFF_FFFF_FFFF;
    let low = u & 0x7FF;
    let round_up = low > 0x400 || (low == 0x400 && keep & 1 == 1);
    proof {
        assert(keep <= 0xF_FFFF_FFFF_FFFF) by (bit_vector)
            requires
                keep == (u >> 11) & 0xF_FFFF_FFFF_FFFF,
        ;
    }
    if round_up {
        if keep == 0xF_FFFF_FFFF_FFFF {
            1087u64 << 52
        } else {
            (1086u64 << 52) | (keep + 1)
        }
    } else {
        (1086u64 << 52) | keep
    }
}

/// Converts a tree node back to a value, permissively.
#[verifier::loop_isolation(false)]
pub fn from_json(j: &JsonValue) -> (r: IrValue)
    ensures
        r@ == json_to_ir_spec(j@),
    decreases *j, 1int,
{
    broadcast use lemma_jsons_view, lemma_jentries_view, lemma_jsons_to_ir, lemma_jelems_to_ir,
        crate::ir::lemma_vals_view, crate::ir::lemma_elems_view;

    match j {
        JsonValue::Null => IrValue::Null,
        JsonValue::Bool(b) => IrValue::Bool(*b),
        JsonValue::Int(i) => IrValue::Integer(*i),
        JsonValue::UInt(u) => {
            if *u <= 0x7FFF_FFFF_FFFF_FFFF {
                IrValue::Integer(*u as i64)
            } else {
                IrValue::Float(f64_bits_of_big(*u))
            }
        },
        JsonValue::Float(bits) => IrValue::Float(*bits),
        JsonValue::Str(s) => IrValue::String(s.clone()),
        JsonValue::Array(xs) => {
            let mut out: Vec<IrValue> = Vec::new();
            let mut i: usize = 0;
            while i < xs.len()
                invariant
                    i <= xs@.len(),
                    out@.len() == i,
                    forall|k: int| 0 <= k < i ==> out@[k]@ == json_to_ir_spec(xs@[k]@),
                decreases xs@.len() - i,
            {
                proof {
                    assert(decreases_to!(*j => xs@[i as int]));
                }
                out.push(from_json(&xs[i]));
                i = i + 1;
            }
            proof {
                assert(vals_view(out@) =~= jsons_to_ir_spec(jsons_view(xs@)));
            }
            IrValue::Array(out)
        },
        JsonValue::Object(entries) => {
            let ghost es = jentries_view(entries@);
            let tagged = match obj_get(entries, "$type") {
                Some(JsonValue::Str(tag)) => Some(tag),
                _ => None,
            };
            match tagged {
                Some(tag) => {
                    if str_eq(tag.as_str(), "timestamp") {
                        let sec = field_i64(entries, "seconds", 0);
                        let ns = field_u64(entries, "nanos", 0);
                        IrValue::Timestamp(
                            IrTimestamp { seconds: sec, nanos: #[verifier::truncate] (ns as u32) },
                        )
                    } else if str_eq(tag.as_str(), "binary") {
                        IrValue::Binary(field_data(entries))
                    } else if str_eq(tag.as_str(), "ext") {
                        let id = field_i64(entries, "ext", 0);
                        IrValue::Ext {
                            type_id: #[verifier::truncate] (id as i8),
                            data: field_data(entries),
                        }
                    } else if str_eq(tag.as_str(), "bundle") {
                        let timetag = field_u64(entries, "timetag", 1);
                        let mut elems: Vec<IrBundleElement> = Vec::new();
                        match obj_get(entries, "elements") {
                            Some(arr) => {
                                match arr {
                                    JsonValue::Array(xs) => {
                                        proof {
                                            let i = choose|i: int|
                                                0 <= i < entries@.len() && *arr
                                                    == #[trigger] entries@[i].1;
                                            assert(decreases_to!(*j => entries@[i].1));
                                        }
                                        let mut k: usize = 0;
                                        while k < xs.len()
                                            invariant
                                                k <= xs@.len(),
                                                elems@.len() == k,
                                                decreases_to!(*j => *xs),
                                                forall|m: int|
                                                    0 <= m < k ==> elems@[m]@ == jelem_to_ir_spec(
                                                        xs@[m]@,
                                                    ),
                                            decreases xs@.len() - k,
                                        {
                                            proof {
                                                assert(decreases_to!(*xs => xs@[k as int]));
                                            }
                                            elems.push(jelem_from(&xs[k]));
                                            k = k + 1;
                                        }
                                        proof {
                                            assert(elems_view(elems@) =~= jelems_to_ir_spec(
                                                jsons_view(xs@),
                                            ));
                                        }
                                    },
                                    _ => {},
                                }
                            },
                            None => {},
                        }
                        proof {
                            match obj_get_spec(es, "elements"@) {
                                Some(JsonS::Array(_)) => {},
                                _ => {
                                    assert(elems_view(elems@) =~= Seq::<IrElemS>::empty());
                                },
                            }
                        }
                        IrValue::Bundle(
                            IrBundle { timetag: IrTimetag { value: timetag }, elements: elems },
                        )
                    } else {
                        proof {
                            assert(decreases_to!(*j => *entries));
                        }
                        IrValue::Mapping(decode_entries(entries))
                    }
                },
                None => {
                    proof {
                        assert(decreases_to!(*j => *entries));
                    }
                    IrValue::Mapping(decode_entries(entries))
                },
            }
        },
    }
}

/// Decodes an object's entries as a plain map, keys kept in order.
#[verifier::loop_isolation(false)]
fn decode_entries(entries: &Vec<(String, JsonValue)>) -> (r: Vec<(String, IrValue)>)
    ensures
        entries_view(r@) == jentries_to_ir_spec(jentries_view(entries@)),
    decreases *entries, 0int,
{
    broadcast use lemma_jentries_view, lemma_jentries_to_ir, crate::ir::lemma_entries_view;

    let mut out: Vec<(String, IrValue)> = Vec::new();
    let mut i: usize = 0;
    while i < entries.len()
        invariant
            i <= entries@.len(),
            out@.len() == i,
            forall|k: int|
                0 <= k < i ==> out@[k].0@ == entries@[k].0@ && out@[k].1@ == json_to_ir_spec(
                    entries@[k].1@,
                ),
        decreases entries@.len() - i,
    {
        proof {
            assert(decreases_to!(*entries => entries@[i as int].1));
        }
        let entry = &entries[i];
        out.push((entry.0.clone(), from_json(&entry.1)));
        i = i + 1;
    }
    proof {
        assert(entries_view(out@) =~= jentries_to_ir_spec(jentries_view(entries@)));
    }
    out
}

/// Decodes one wrapped bundle element.
#[verifier::loop_isolation(false)]
fn jelem_from(j: &JsonValue) -> (r: IrBundleElement)
    ensures
        r@ == jelem_to_ir_spec(j@),
    decreases *j, 2int,
{
    broadcast use lemma_jentries_view;

    match j {
        JsonValue::Object(entries) => {
            let ghost es = jentries_view(entries@);
            let kind = match obj_get(entries, "type") {
                Some(JsonValue::Str(t)) => Some(t),
                _ => None,
            };
            match kind {
                Some(t) => {
                    if str_eq(t.as_str(), "message") {
                        match obj_get(entries, "data") {
                            Some(d) => {
                                proof {
                                    let i = choose|i: int|
                                        0 <= i < entries@.len() && *d == #[trigger] entries@[i].1;
                                    assert(decreases_to!(*j => entries@[i].1));
                                }
                                IrBundleElement::Message(from_json(d))
                            },
                            None => IrBundleElement::Message(from_json(j)),
                        }
                    } else if str_eq(t.as_str(), "bundle") {
                        match obj_get(entries, "data") {
                            Some(d) => {
                                proof {
                                    let i = choose|i: int|
                                        0 <= i < entries@.len() && *d == #[trigger] entries@[i].1;
                                    assert(decreases_to!(*j => entries@[i].1));
                                }
                                let decoded = from_json(d);
                                match decoded {
                                    IrValue::Bundle(b) => IrBundleElement::Bundle(b),
                                    other => {
                                        IrBundleElement::Message(from_json(j))
                                    },
                                }
                            },
                            None => IrBundleElement::Message(from_json(j)),
                        }
                    } else {
                        IrBundleElement::Message(from_json(j))
                    }
                },
                None => IrBundleElement::Message(from_json(j)),
            }
        },
        _ => IrBundleElement::Message(from_json(j)),
    }
}

/// The `$type` strings the decoder recognizes as tags.
pub open spec fn reserved_tag(t: Seq<char>) -> bool {
    t == "timestamp"@ || t == "binary"@ || t == "ext"@ || t == "bundle"@
}

/// The first value stored under a key in a map's entries, if any.
pub open spec fn ir_lookup(es: Seq<(Seq<char>, IrValS)>, key: Seq<char>) -> Option<IrValS>
    decreases es.len(),
{
    if es.len() == 0 {
        None
    } else if es[0].0 == key {
        Some(es[0].1)
    } else {
        ir_lookup(es.subrange(1, es.len() as int), key)
    }
}

/// A value round-trips through the text codec when its floats are finite
/// and none of its maps opens with a `$type` entry holding a reserved tag
/// string.
pub open spec fn json_safe(v: IrValS) -> bool
    decreases v, 0int,
{
    match v {
        IrValS::Float(bits) => f64_bits_finite(bits),
        IrValS::Array(xs) => json_safe_vals(xs),
        IrValS::Mapping(es) => json_safe_entries(es) && (match ir_lookup(es, "$type"@) {
            Some(IrValS::Str(t)) => !reserved_tag(t),
            _ => true,
        }),
        IrValS::Bundle(b) => json_safe_elems(b.elements),
        _ => true,
    }
}

/// Every value in a list round-trips.
pub open spec fn json_safe_vals(s: Seq<IrValS>) -> bool
    decreases s, 1int,
{
    if s.len() == 0 {
        true
    } else {
        json_safe(s[0]) && json_safe_vals(s.subrange(1, s.len() as int))
    }
}

/// Every entry value in a list round-trips.
pub open spec fn json_safe_entries(s: Seq<(Seq<char>, IrValS)>) -> bool
    decreases s, 1int,
    via json_safe_entries_dec
{
    if s.len() == 0 {
        true
    } else {
        json_safe(s[0].1) && json_safe_entries(s.subrange(1, s.len() as int))
    }
}

#[via_fn]
proof fn json_safe_entries_dec(s: Seq<(Seq<char>, IrValS)>) {
    if s.len() > 0 {
        assert(decreases_to!(s => s[0]));
        assert(decreases_to!(s[0] => s[0].1));
    }
}

/// Every element of a bundle round-trips.
pub open spec fn json_safe_elems(s: Seq<IrElemS>) -> bool
    decreases s, 1int,
{
    if s.len() == 0 {
        true
    } else {
        json_safe_elem(s[0]) && json_safe_elems(s.subrange(1, s.len() as int))
    }
}

/// A bundle element round-trips when its payload does.
pub open spec fn json_safe_elem(e: IrElemS) -> bool
    decreases e, 2int,
    via json_safe_elem_dec
{
    match e {
        IrElemS::Message(m) => json_safe(m),
        IrElemS::Bundle(b) => json_safe_elems(b.elements),
    }
}

#[via_fn]
proof fn json_safe_elem_dec(e: IrElemS) {
    match e {
        IrElemS::Bundle(b) => {
            assert(decreases_to!(e => b));
            assert(decreases_to!(b => b.elements));
        },
        _ => {},
    }
}

/// The key and tag strings the codec writes are pairwise distinct where
/// the decoder has to tell them apart.
proof fn lemma_literals()
    ensures
        "$type"@ != "seconds"@,
        "$type"@ != "nanos"@,
        "$type"@ != "ext"@,
        "$type"@ != "data"@,
        "$type"@ != "timetag"@,
        "$type"@ != "elements"@,
        "seconds"@ != "nanos"@,
        "ext"@ != "data"@,
        "timetag"@ != "elements"@,
        "type"@ != "data"@,
        "binary"@ != "timestamp"@,
        "ext"@ != "timestamp"@,
        "ext"@ != "binary"@,
        "bundle"@ != "timestamp"@,
        "bundle"@ != "binary"@,
        "bundle"@ != "ext"@,
        "bundle"@ != "message"@,
{
    broadcast use vstd::string::group_string_axioms;

    reveal_strlit("$type");
    reveal_strlit("seconds");
    reveal_strlit("nanos");
    reveal_strlit("ext");
    reveal_strlit("data");
    reveal_strlit("timetag");
    reveal_strlit("elements");
    reveal_strlit("type");
    reveal_strlit("binary");
    reveal_strlit("timestamp");
    reveal_strlit("bundle");
    reveal_strlit("message");
    assert("$type"@.len() == 5);
    assert("seconds"@.len() == 7);
    assert("nanos"@.len() == 5);
    assert("ext"@.len() == 3);
    assert("data"@.len() == 4);
    assert("timetag"@.len() == 7);
    assert("elements"@.len() == 8);
    assert("type"@.len() == 4);
    assert("binary"@.len() == 6);
    assert("timestamp"@.len() == 9);
    assert("bundle"@.len() == 6);
    assert("message"@.len() == 7);
    assert("$type"@[0] == '$' && "nanos"@[0] == 'n');
    assert("type"@[0] == 't' && "data"@[0] == 'd');
    assert("bundle"@[1] == 'u' && "binary"@[1] == 'i');
}

/// Looking a key up among encoded entries finds the encoding of what the
/// same lookup finds among the source entries.
proof fn lemma_lookup_encode(es: Seq<(Seq<char>, IrValS)>, key: Seq<char>)
    ensures
        obj_get_spec(irentries_to_json_spec(es), key) == (match ir_lookup(es, key) {
            Some(v) => Some(ir_to_json_spec(v)),
            None => None::<JsonS>,
        }),
    decreases es.len(),
{
    if es.len() > 0 {
        let rest = es.subrange(1, es.len() as int);
        lemma_lookup_encode(rest, key);
        assert(irentries_to_json_spec(es).subrange(
            1,
            irentries_to_json_spec(es).len() as int,
        ) =~= irentries_to_json_spec(rest));
    }
}

/// Decoding the encoding of a safe value gives the value back.
pub proof fn lemma_json_round_trip(v: IrValS)
    requires
        json_safe(v),
    ensures
        json_to_ir_spec(ir_to_json_spec(v)) == v,
    decreases v, 0int,
{
    lemma_literals();
    reveal_with_fuel(obj_get_spec, 5);
    match v {
        IrValS::Binary(b) => {
            let es = seq![("$type"@, JsonS::Str("binary"@)), ("data"@, JsonS::Str(b64_of(b)))];
            assert(es.subrange(1, 2) =~= seq![("data"@, JsonS::Str(b64_of(b)))]);
            crate::b64::lemma_b64_round_trip(b);
        },
        IrValS::Timestamp(sec, ns) => {
            let es = seq![
                ("$type"@, JsonS::Str("timestamp"@)),
                ("seconds"@, JsonS::Int(sec)),
                ("nanos"@, JsonS::UInt(ns as u64)),
            ];
            assert(es.subrange(1, 3) =~= seq![
                ("seconds"@, JsonS::Int(sec)),
                ("nanos"@, JsonS::UInt(ns as u64)),
            ]);
            assert(es.subrange(1, 3).subrange(1, 2) =~= seq![("nanos"@, JsonS::UInt(ns as u64))]);
        },
        IrValS::Ext(id, data) => {
            let es = seq![
                ("$type"@, JsonS::Str("ext"@)),
                ("ext"@, JsonS::Int(id as i64)),
                ("data"@, JsonS::Str(b64_of(data))),
            ];
            assert(es.subrange(1, 3) =~= seq![
                ("ext"@, JsonS::Int(id as i64)),
                ("data"@, JsonS::Str(b64_of(data))),
            ]);
            assert(es.subrange(1, 3).subrange(1, 2) =~= seq![("data"@, JsonS::Str(b64_of(data)))]);
            crate::b64::lemma_b64_round_trip(data);
        },
        IrValS::Array(xs) => {
            lemma_json_vals_round_trip(xs);
        },
        IrValS::Mapping(es) => {
            lemma_lookup_encode(es, "$type"@);
            lemma_json_entries_round_trip(es);
            match ir_lookup(es, "$type"@) {
                Some(v0) => {
                    match v0 {
                        IrValS::Str(t) => {
                            assert(!reserved_tag(t));
                        },
                        IrValS::Bundle(b0) => {
                            assert(ir_to_json_spec(v0) == bundle_to_json_spec(b0));
                            assert(!(ir_to_json_spec(v0) is Str));
                        },
                        _ => {
                            assert(!(ir_to_json_spec(v0) is Str));
                        },
                    }
                },
                None => {},
            }
        },
        IrValS::Bundle(b) => {
            lemma_json_bundle_round_trip(b);
        },
        _ => {},
    }
}

/// Decoding the encoding of a safe bundle gives the bundle back.
proof fn lemma_json_bundle_round_trip(b: IrBundleS)
    requires
        json_safe_elems(b.elements),
    ensures
        json_to_ir_spec(bundle_to_json_spec(b)) == IrValS::Bundle(b),
    decreases b, 3int,
{
    lemma_literals();
    reveal_with_fuel(obj_get_spec, 5);
    let es = seq![
        ("$type"@, JsonS::Str("bundle"@)),
        ("timetag"@, JsonS::UInt(b.timetag)),
        ("elements"@, JsonS::Array(irelems_to_json_spec(b.elements))),
    ];
    assert(es.subrange(1, 3) =~= seq![
        ("timetag"@, JsonS::UInt(b.timetag)),
        ("elements"@, JsonS::Array(irelems_to_json_spec(b.elements))),
    ]);
    assert(es.subrange(1, 3).subrange(1, 2) =~= seq![
        ("elements"@, JsonS::Array(irelems_to_json_spec(b.elements))),
    ]);
    lemma_json_elems_round_trip(b.elements);
}

/// Decoding an encoded list of safe values gives the list back.
proof fn lemma_json_vals_round_trip(s: Seq<IrValS>)
    requires
        json_safe_vals(s),
    ensures
        jsons_to_ir_spec(irvals_to_json_spec(s)) == s,
    decreases s, 1int,
{
    if s.len() > 0 {
        let rest = s.subrange(1, s.len() as int);
        lemma_json_round_trip(s[0]);
        lemma_json_vals_round_trip(rest);
        assert(irvals_to_json_spec(s).subrange(1, irvals_to_json_spec(s).len() as int)
            =~= irvals_to_json_spec(rest));
        assert(jsons_to_ir_spec(irvals_to_json_spec(s)) =~= s);
    }
}

/// Decoding encoded entries with safe values gives the entries back.
proof fn lemma_json_entries_round_trip(s: Seq<(Seq<char>, IrValS)>)
    requires
        json_safe_entries(s),
    ensures
        jentries_to_ir_spec(irentries_to_json_spec(s)) == s,
    decreases s, 1int,
{
    if s.len() > 0 {
        let rest = s.subrange(1, s.len() as int);
        lemma_json_round_trip(s[0].1);
        lemma_json_entries_round_trip(rest);
        assert(irentries_to_json_spec(s).subrange(1, irentries_to_json_spec(s).len() as int)
            =~= irentries_to_json_spec(rest));
        assert(jentries_to_ir_spec(irentries_to_json_spec(s)) =~= s);
    }
}

/// Decoding an encoded list of safe bundle elements gives the list back.
proof fn lemma_json_elems_round_trip(s: Seq<IrElemS>)
    requires
        json_safe_elems(s),
    ensures
        jelems_to_ir_spec(irelems_to_json_spec(s)) == s,
    decreases s, 1int,
{
    if s.len() > 0 {
        let rest = s.subrange(1, s.len() as int);
        lemma_json_elem_round_trip(s[0]);
        lemma_json_elems_round_trip(rest);
        assert(irelems_to_json_spec(s).subrange(1, irelems_to_json_spec(s).len() as int)
            =~= irelems_to_json_spec(rest));
        assert(jelems_to_ir_spec(irelems_to_json_spec(s)) =~= s);
    }
}

/// Unwrapping the wrapped form of a safe bundle element gives the element
/// back.
proof fn lemma_json_elem_round_trip(e: IrElemS)
    requires
        json_safe_elem(e),
    ensures
        jelem_to_ir_spec(irelem_to_json_spec(e)) == e,
    decreases e, 2int,
{
    lemma_literals();
    reveal_with_fuel(obj_get_spec, 5);
    match e {
        IrElemS::Message(m) => {
            let es = seq![("type"@, JsonS::Str("message"@)), ("data"@, ir_to_json_spec(m))];
            assert(es.subrange(1, 2) =~= seq![("data"@, ir_to_json_spec(m))]);
            lemma_json_round_trip(m);
        },
        IrElemS::Bundle(b) => {
            let es = seq![("type"@, JsonS::Str("bundle"@)), ("data"@, bundle_to_json_spec(b))];
            assert(es.subrange(1, 2) =~= seq![("data"@, bundle_to_json_spec(b))]);
            lemma_json_bundle_round_trip(b);
        },
    }
}

} // verus!
