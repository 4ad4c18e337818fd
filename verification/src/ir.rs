//! The IR value model: a closed set of value variants plus the
//! bundle/timetag types used to group values for scheduled delivery.
//!
//! Values are immutable trees with structural equality. Floating-point
//! payloads are carried as their raw IEEE-754 bit patterns (`u64`), so
//! equality over them is bit-pattern equality; producers and consumers
//! convert at the boundary with `f64::to_bits` / `f64::from_bits`.

use vstd::prelude::*;

verus! {

/// Seconds-and-nanoseconds timestamp carried by [`IrValue::Timestamp`].
#[derive(Clone, Copy, Debug, PartialEq, Eq, Structural)]
pub struct IrTimestamp {
    pub seconds: i64,
    pub nanos: u32,
}

/// Scheduling tag for bundle delivery. A value of 1 means "immediately";
/// any other value is an opaque NTP-style timestamp.
#[derive(Clone, Copy, Debug, PartialEq, Eq, Structural)]
pub struct IrTimetag {
    pub value: u64,
}

/// Whether a timetag requests immediate delivery.
pub open spec fn timetag_immediate(t: IrTimetag) -> bool {
    t.value == 1
}

impl IrTimetag {
    /// Creates a timetag for immediate execution.
    pub fn immediate() -> (r: Self)
        ensures
            r.value == 1,
            timetag_immediate(r),
    {
        Self { value: 1 }
    }

    /// Creates a timetag from an NTP-style timestamp.
    pub fn from_ntp(ntp_time: u64) -> (r: Self)
        ensures
            r.value == ntp_time,
    {
        Self { value: ntp_time }
    }

    /// Returns true if this timetag indicates immediate execution.
    pub fn is_immediate(&self) -> (r: bool)
        ensures
            r == timetag_immediate(*self),
    {
        self.value == 1
    }
}

/// A timetag built from any raw value is immediate exactly when that value
/// is 1, and the ready-made immediate timetag carries the value 1.
pub proof fn lemma_timetag_immediate(t: u64)
    ensures
        timetag_immediate(IrTimetag { value: t }) <==> t == 1,
{
}

/// An element contained in a bundle: either a message (any [`IrValue`])
/// or a nested bundle.
#[derive(Debug, PartialEq)]
pub enum IrBundleElement {
    /// A message or other data structure.
    Message(IrValue),
    /// A nested bundle.
    Bundle(IrBundle),
}

/// Bundle structure supporting nested bundles with timetags.
#[derive(Debug, PartialEq)]
pub struct IrBundle {
    /// When this bundle should be executed.
    pub timetag: IrTimetag,
    /// Elements contained in this bundle (messages or nested bundles).
    pub elements: Vec<IrBundleElement>,
}

/// Protocol-agnostic value space.
#[derive(Debug, PartialEq)]
pub enum IrValue {
    Null,
    Bool(bool),
    Integer(i64),
    /// IEEE-754 double, stored as its raw bit pattern.
    Float(u64),
    String(String),
    Binary(Vec<u8>),
    Array(Vec<IrValue>),
    /// Map keys are strings; insertion order and duplicates are kept.
    Mapping(Vec<(String, IrValue)>),
    Timestamp(IrTimestamp),
    /// Extension payload: an application-defined type id plus raw bytes.
    Ext { type_id: i8, data: Vec<u8> },
    /// A bundle with timetag and nested elements.
    Bundle(IrBundle),
}

/// Mathematical model of an [`IrValue`]: the same tree over `Seq` instead
/// of `Vec` and `Seq<char>` instead of `String`.
pub ghost enum IrValS {
    Null,
    Bool(bool),
    Integer(i64),
    Float(u64),
    Str(Seq<char>),
    Binary(Seq<u8>),
    Array(Seq<IrValS>),
    Mapping(Seq<(Seq<char>, IrValS)>),
    Timestamp(i64, u32),
    Ext(i8, Seq<u8>),
    Bundle(IrBundleS),
}

/// Mathematical model of an [`IrBundleElement`].
pub ghost enum IrElemS {
    Message(IrValS),
    Bundle(IrBundleS),
}

/// Mathematical model of an [`IrBundle`].
pub ghost struct IrBundleS {
    pub timetag: u64,
    pub elements: Seq<IrElemS>,
}

/// Model of a single value.
pub open spec fn val_view(v: IrValue) -> IrValS
    decreases v, 1int,
    via val_view_dec
{
    match v {
        IrValue::Null => IrValS::Null,
        IrValue::Bool(b) => IrValS::Bool(b),
        IrValue::Integer(i) => IrValS::Integer(i),
        IrValue::Float(bits) => IrValS::Float(bits),
        IrValue::String(s) => IrValS::Str(s@),
        IrValue::Binary(b) => IrValS::Binary(b@),
        IrValue::Array(xs) => IrValS::Array(vals_view(xs@)),
        IrValue::Mapping(es) => IrValS::Mapping(entries_view(es@)),
        IrValue::Timestamp(ts) => IrValS::Timestamp(ts.seconds, ts.nanos),
        IrValue::Ext { type_id, data } => IrValS::Ext(type_id, data@),
        IrValue::Bundle(b) => IrValS::Bundle(bundle_view(b)),
    }
}

#[via_fn]
proof fn val_view_dec(v: IrValue) {
    match v {
        IrValue::Array(xs) => {
            assert(decreases_to!(v => xs));
            assert(decreases_to!(xs => xs@));
        },
        IrValue::Mapping(es) => {
            assert(decreases_to!(v => es));
            assert(decreases_to!(es => es@));
        },
        _ => {},
    }
}

/// Model of a list of values.
pub open spec fn vals_view(s: Seq<IrValue>) -> Seq<IrValS>
    decreases s, 0int,
{
    if s.len() == 0 {
        Seq::empty()
    } else {
        seq![val_view(s[0])] + vals_view(s.subrange(1, s.len() as int))
    }
}

/// A value list's model has one entry per value, the value's own model.
pub broadcast proof fn lemma_vals_view(s: Seq<IrValue>)
    ensures
        #![trigger vals_view(s)]
        vals_view(s).len() == s.len(),
        forall|i: int| 0 <= i < s.len() ==> vals_view(s)[i] == val_view(s[i]),
    decreases s.len(),
{
    if s.len() > 0 {
        lemma_vals_view(s.subrange(1, s.len() as int));
    }
}

/// Model of a list of map entries.
pub open spec fn entries_view(s: Seq<(String, IrValue)>) -> Seq<(Seq<char>, IrValS)>
    decreases s, 0int,
    via entries_view_dec
{
    if s.len() == 0 {
        Seq::empty()
    } else {
        seq![(s[0].0@, val_view(s[0].1))] + entries_view(s.subrange(1, s.len() as int))
    }
}

#[via_fn]
proof fn entries_view_dec(s: Seq<(String, IrValue)>) {
    if s.len() > 0 {
        assert(decreases_to!(s => s[0]));
        assert(decreases_to!(s[0] => s[0].1));
    }
}

/// An entry list's model pairs each key's characters with the value's model.
pub broadcast proof fn lemma_entries_view(s: Seq<(String, IrValue)>)
    ensures
        #![trigger entries_view(s)]
        entries_view(s).len() == s.len(),
        forall|i: int| 0 <= i < s.len() ==> entries_view(s)[i] == (s[i].0@, val_view(s[i].1)),
    decreases s.len(),
{
    if s.len() > 0 {
        lemma_entries_view(s.subrange(1, s.len() as int));
    }
}

/// Model of a bundle element.
pub open spec fn elem_view(e: IrBundleElement) -> IrElemS
    decreases e, 1int,
{
    match e {
        IrBundleElement::Message(v) => IrElemS::Message(val_view(v)),
        IrBundleElement::Bundle(b) => IrElemS::Bundle(bundle_view(b)),
    }
}

/// Model of a list of bundle elements.
pub open spec fn elems_view(s: Seq<IrBundleElement>) -> Seq<IrElemS>
    decreases s, 0int,
{
    if s.len() == 0 {
        Seq::empty()
    } else {
        seq![elem_view(s[0])] + elems_view(s.subrange(1, s.len() as int))
    }
}

/// An element list's model has one entry per element, the element's own model.
pub broadcast proof fn lemma_elems_view(s: Seq<IrBundleElement>)
    ensures
        #![trigger elems_view(s)]
        elems_view(s).len() == s.len(),
        forall|i: int| 0 <= i < s.len() ==> elems_view(s)[i] == elem_view(s[i]),
    decreases s.len(),
{
    if s.len() > 0 {
        lemma_elems_view(s.subrange(1, s.len() as int));
    }
}

/// Model of a bundle.
pub open spec fn bundle_view(b: IrBundle) -> IrBundleS
    decreases b, 2int,
    via bundle_view_dec
{
    IrBundleS { timetag: b.timetag.value, elements: elems_view(b.elements@) }
}

#[via_fn]
proof fn bundle_view_dec(b: IrBundle) {
    assert(decreases_to!(b => b.elements));
    assert(decreases_to!(b.elements => b.elements@));
}

impl View for IrValue {
    type V = IrValS;

    open spec fn view(&self) -> IrValS {
        val_view(*self)
    }
}

impl View for IrBundleElement {
    type V = IrElemS;

    open spec fn view(&self) -> IrElemS {
        elem_view(*self)
    }
}

impl View for IrBundle {
    type V = IrBundleS;

    open spec fn view(&self) -> IrBundleS {
        bundle_view(*self)
    }
}

impl IrBundle {
    /// Creates a new bundle with immediate execution.
    pub fn immediate() -> (r: Self)
        ensures
            r@.timetag == 1,
            r@.elements == Seq::<IrElemS>::empty(),
    {
        Self { timetag: IrTimetag::immediate(), elements: Vec::new() }
    }

    /// Creates a new bundle with the specified timetag.
    pub fn new(timetag: IrTimetag) -> (r: Self)
        ensures
            r@.timetag == timetag.value,
            r@.elements == Seq::<IrElemS>::empty(),
    {
        Self { timetag, elements: Vec::new() }
    }

    /// Adds a message to this bundle.
    pub fn add_message(&mut self, message: IrValue)
        ensures
            final(self)@.timetag == old(self)@.timetag,
            final(self)@.elements == old(self)@.elements.push(IrElemS::Message(message@)),
    {
        let ghost msg_model = message@;
        self.elements.push(IrBundleElement::Message(message));
        proof {
            broadcast use lemma_elems_view;

            assert(elems_view(self.elements@) =~= elems_view(old(self).elements@).push(
                IrElemS::Message(msg_model),
            ));
        }
    }

    /// Adds a nested bundle to this bundle.
    pub fn add_bundle(&mut self, bundle: IrBundle)
        ensures
            final(self)@.timetag == old(self)@.timetag,
            final(self)@.elements == old(self)@.elements.push(IrElemS::Bundle(bundle@)),
    {
        let ghost bundle_model = bundle@;
        self.elements.push(IrBundleElement::Bundle(bundle));
        proof {
            broadcast use lemma_elems_view;

            assert(elems_view(self.elements@) =~= elems_view(old(self).elements@).push(
                IrElemS::Bundle(bundle_model),
            ));
        }
    }

    /// Adds an element to this bundle.
    pub fn add_element(&mut self, element: IrBundleElement)
        ensures
            final(self)@.timetag == old(self)@.timetag,
            final(self)@.elements == old(self)@.elements.push(element@),
    {
        let ghost elem_model = element@;
        self.elements.push(element);
        proof {
            broadcast use lemma_elems_view;

            assert(elems_view(self.elements@) =~= elems_view(old(self).elements@).push(
                elem_model,
            ));
        }
    }

    /// Returns true if this bundle is empty (has no elements).
    pub fn is_empty(&self) -> (r: bool)
        ensures
            r == (self@.elements.len() == 0),
    {
        proof {
            lemma_elems_view(self.elements@);
        }
        self.elements.len() == 0
    }

    /// Returns the number of elements in this bundle.
    pub fn len(&self) -> (r: usize)
        ensures
            r == self@.elements.len(),
    {
        proof {
            lemma_elems_view(self.elements@);
        }
        self.elements.len()
    }

    /// Returns true if this bundle should be executed immediately.
    pub fn is_immediate(&self) -> (r: bool)
        ensures
            r == (self@.timetag == 1),
    {
        self.timetag.is_immediate()
    }
}

impl IrBundleElement {
    /// Returns true if this element is a message.
    pub fn is_message(&self) -> (r: bool)
        ensures
            r == (self@ is Message),
    {
        matches!(self, IrBundleElement::Message(_))
    }

    /// Returns true if this element is a bundle.
    pub fn is_bundle(&self) -> (r: bool)
        ensures
            r == (self@ is Bundle),
    {
        matches!(self, IrBundleElement::Bundle(_))
    }

    /// Returns a reference to the message if this element is a message.
    pub fn as_message(&self) -> (r: Option<&IrValue>)
        ensures
            match self@ {
                IrElemS::Message(m) => r matches Some(v) && v@ == m,
                IrElemS::Bundle(_) => r is None,
            },
    {
        match self {
            IrBundleElement::Message(msg) => Some(msg),
            _ => None,
        }
    }

    /// Returns a reference to the bundle if this element is a bundle.
    pub fn as_bundle(&self) -> (r: Option<&IrBundle>)
        ensures
            match self@ {
                IrElemS::Bundle(bs) => r matches Some(b) && b@ == bs,
                IrElemS::Message(_) => r is None,
            },
    {
        match self {
            IrBundleElement::Bundle(bundle) => Some(bundle),
            _ => None,
        }
    }
}

impl IrValue {
    /// The null value.
    pub fn null() -> (r: Self)
        ensures
            r@ == IrValS::Null,
    {
        IrValue::Null
    }

    /// Returns true if this value is null.
    pub fn is_null(&self) -> (r: bool)
        ensures
            r == (self@ is Null),
    {
        matches!(self, IrValue::Null)
    }

    /// The boolean payload, if this value is a boolean.
    pub fn as_bool(&self) -> (r: Option<bool>)
        ensures
            r == (match self@ {
                IrValS::Bool(b) => Some(b),
                _ => None::<bool>,
            }),
    {
        match self {
            IrValue::Bool(v) => Some(*v),
            _ => None,
        }
    }

    /// The integer payload, if this value is an integer.
    pub fn as_integer(&self) -> (r: Option<i64>)
        ensures
            r == (match self@ {
                IrValS::Integer(i) => Some(i),
                _ => None::<i64>,
            }),
    {
        match self {
            IrValue::Integer(v) => Some(*v),
            _ => None,
        }
    }

    /// The raw IEEE-754 bit pattern, if this value is a float.
    pub fn as_float(&self) -> (r: Option<u64>)
        ensures
            r == (match self@ {
                IrValS::Float(bits) => Some(bits),
                _ => None::<u64>,
            }),
    {
        match self {
            IrValue::Float(v) => Some(*v),
            _ => None,
        }
    }

    /// The text payload, if this value is a string.
    pub fn as_str(&self) -> (r: Option<&str>)
        ensures
            match self@ {
                IrValS::Str(s) => r matches Some(t) && t@ == s,
                _ => r is None,
            },
    {
        match self {
            IrValue::String(v) => Some(v.as_str()),
            _ => None,
        }
    }

    /// The byte payload, if this value is a binary blob.
    pub fn as_binary(&self) -> (r: Option<&Vec<u8>>)
        ensures
            match self@ {
                IrValS::Binary(b) => r matches Some(v) && v@ == b,
                _ => r is None,
            },
    {
        match self {
            IrValue::Binary(v) => Some(v),
            _ => None,
        }
    }

    /// The children, if this value is an array.
    pub fn as_array(&self) -> (r: Option<&Vec<IrValue>>)
        ensures
            match self@ {
                IrValS::Array(a) => r matches Some(v) && vals_view(v@) == a,
                _ => r is None,
            },
    {
        match self {
            IrValue::Array(v) => Some(v),
            _ => None,
        }
    }

    /// The entries, if this value is a map.
    pub fn as_map(&self) -> (r: Option<&Vec<(String, IrValue)>>)
        ensures
            match self@ {
                IrValS::Mapping(es) => r matches Some(v) && entries_view(v@) == es,
                _ => r is None,
            },
    {
        match self {
            IrValue::Mapping(v) => Some(v),
            _ => None,
        }
    }

    /// The timestamp payload, if this value is a timestamp.
    pub fn as_timestamp(&self) -> (r: Option<&IrTimestamp>)
        ensures
            match self@ {
                IrValS::Timestamp(sec, ns) => r matches Some(ts) && ts.seconds == sec
                    && ts.nanos == ns,
                _ => r is None,
            },
    {
        match self {
            IrValue::Timestamp(v) => Some(v),
            _ => None,
        }
    }

    /// The extension id and bytes, if this value is an extension payload.
    pub fn as_ext(&self) -> (r: Option<(i8, &Vec<u8>)>)
        ensures
            match self@ {
                IrValS::Ext(id, d) => r matches Some(p) && p.0 == id && p.1@ == d,
                _ => r is None,
            },
    {
        match self {
            IrValue::Ext { type_id, data } => Some((*type_id, data)),
            _ => None,
        }
    }

    /// The bundle payload, if this value is a bundle.
    pub fn as_bundle(&self) -> (r: Option<&IrBundle>)
        ensures
            match self@ {
                IrValS::Bundle(bs) => r matches Some(b) && b@ == bs,
                _ => r is None,
            },
    {
        match self {
            IrValue::Bundle(bundle) => Some(bundle),
            _ => None,
        }
    }
}

impl Default for IrValue {
    /// The default value is null.
    fn default() -> (r: Self)
        ensures
            r@ == IrValS::Null,
    {
        IrValue::Null
    }
}

/// Deep copy of a value; the copy has the same mathematical model.
#[verifier::loop_isolation(false)]
fn clone_value(v: &IrValue) -> (res: IrValue)
    ensures
        res@ == v@,
    decreases *v,
{
    match v {
        IrValue::Null => IrValue::Null,
        IrValue::Bool(b) => IrValue::Bool(*b),
        IrValue::Integer(i) => IrValue::Integer(*i),
        IrValue::Float(bits) => IrValue::Float(*bits),
        IrValue::String(s) => IrValue::String(s.clone()),
        IrValue::Binary(b) => IrValue::Binary(clone_bytes(b)),
        IrValue::Array(xs) => {
            let mut out: Vec<IrValue> = Vec::new();
            let mut i: usize = 0;
            while i < xs.len()
                invariant
                    i <= xs.len(),
                    out@.len() == i,
                    forall|j: int| 0 <= j < i ==> out@[j]@ == xs@[j]@,
                decreases xs.len() - i,
            {
                proof {
                    assert(decreases_to!(*v => xs@[i as int]));
                }
                out.push(clone_value(&xs[i]));
                i = i + 1;
            }
            proof {
                broadcast use lemma_vals_view;

                assert(vals_view(out@) =~= vals_view(xs@));
            }
            IrValue::Array(out)
        },
        IrValue::Mapping(es) => {
            let mut out: Vec<(String, IrValue)> = Vec::new();
            let mut i: usize = 0;
            while i < es.len()
                invariant
                    i <= es.len(),
                    out@.len() == i,
                    forall|j: int| 0 <= j < i ==> out@[j].0@ == es@[j].0@ && out@[j].1@
                        == es@[j].1@,
                decreases es.len() - i,
            {
                proof {
                    assert(decreases_to!(*v => es@[i as int].1));
                }
                let entry = &es[i];
                out.push((entry.0.clone(), clone_value(&entry.1)));
                i = i + 1;
            }
            proof {
                broadcast use lemma_entries_view;

                assert(entries_view(out@) =~= entries_view(es@));
            }
            IrValue::Mapping(out)
        },
        IrValue::Timestamp(ts) => IrValue::Timestamp(*ts),
        IrValue::Ext { type_id, data } => IrValue::Ext { type_id: *type_id, data: clone_bytes(data) },
        IrValue::Bundle(b) => IrValue::Bundle(clone_bundle(b)),
    }
}

/// Deep copy of a bundle element.
fn clone_elem(e: &IrBundleElement) -> (res: IrBundleElement)
    ensures
        res@ == e@,
    decreases *e,
{
    match e {
        IrBundleElement::Message(v) => IrBundleElement::Message(clone_value(v)),
        IrBundleElement::Bundle(b) => IrBundleElement::Bundle(clone_bundle(b)),
    }
}

/// Deep copy of a bundle.
#[verifier::loop_isolation(false)]
fn clone_bundle(b: &IrBundle) -> (res: IrBundle)
    ensures
        res@ == b@,
    decreases *b,
{
    let mut out: Vec<IrBundleElement> = Vec::new();
    let mut i: usize = 0;
    while i < b.elements.len()
        invariant
            i <= b.elements.len(),
            out@.len() == i,
            forall|j: int| 0 <= j < i ==> out@[j]@ == b.elements@[j]@,
        decreases b.elements.len() - i,
    {
        proof {
            assert(decreases_to!(*b => b.elements@[i as int]));
        }
        out.push(clone_elem(&b.elements[i]));
        i = i + 1;
    }
    proof {
        broadcast use lemma_elems_view;

        assert(elems_view(out@) =~= elems_view(b.elements@));
    }
    IrBundle { timetag: b.timetag, elements: out }
}

/// Byte-for-byte copy of a byte buffer.
fn clone_bytes(b: &Vec<u8>) -> (res: Vec<u8>)
    ensures
        res@ == b@,
{
    let mut out: Vec<u8> = Vec::new();
    let mut i: usize = 0;
    while i < b.len()
        invariant
            i <= b.len(),
            out@ == b@.subrange(0, i as int),
        decreases b.len() - i,
    {
        out.push(b[i]);
        proof {
            assert(out@ =~= b@.subrange(0, i + 1 as int));
        }
        i = i + 1;
    }
    proof {
        assert(out@ =~= b@);
    }
    out
}

impl vstd::std_specs::convert::FromSpecImpl<()> for IrValue {
    open spec fn obeys_from_spec() -> bool {
        true
    }

    open spec fn from_spec(v: ()) -> Self {
        IrValue::Null
    }
}

impl From<()> for IrValue {
    fn from(v: ()) -> (r: Self)
        ensures
            r@ == IrValS::Null,
    {
        IrValue::Null
    }
}

impl vstd::std_specs::convert::FromSpecImpl<bool> for IrValue {
    open spec fn obeys_from_spec() -> bool {
        true
    }

    open spec fn from_spec(v: bool) -> Self {
        IrValue::Bool(v)
    }
}

impl From<bool> for IrValue {
    fn from(v: bool) -> (r: Self)
        ensures
            r@ == IrValS::Bool(v),
    {
        IrValue::Bool(v)
    }
}

impl vstd::std_specs::convert::FromSpecImpl<i8> for IrValue {
    open spec fn obeys_from_spec() -> bool {
        true
    }

    open spec fn from_spec(v: i8) -> Self {
        IrValue::Integer(v as i64)
    }
}

impl From<i8> for IrValue {
    fn from(v: i8) -> (r: Self)
        ensures
            r@ == IrValS::Integer(v as i64),
    {
        IrValue::Integer(v as i64)
    }
}

impl vstd::std_specs::convert::FromSpecImpl<i16> for IrValue {
    open spec fn obeys_from_spec() -> bool {
        true
    }

    open spec fn from_spec(v: i16) -> Self {
        IrValue::Integer(v as i64)
    }
}

impl From<i16> for IrValue {
    fn from(v: i16) -> (r: Self)
        ensures
            r@ == IrValS::Integer(v as i64),
    {
        IrValue::Integer(v as i64)
    }
}

impl vstd::std_specs::convert::FromSpecImpl<i32> for IrValue {
    open spec fn obeys_from_spec() -> bool {
        true
    }

    open spec fn from_spec(v: i32) -> Self {
        IrValue::Integer(v as i64)
    }
}

impl From<i32> for IrValue {
    fn from(v: i32) -> (r: Self)
        ensures
            r@ == IrValS::Integer(v as i64),
    {
        IrValue::Integer(v as i64)
    }
}

impl vstd::std_specs::convert::FromSpecImpl<i64> for IrValue {
    open spec fn obeys_from_spec() -> bool {
        true
    }

    open spec fn from_spec(v: i64) -> Self {
        IrValue::Integer(v)
    }
}

impl From<i64> for IrValue {
    fn from(v: i64) -> (r: Self)
        ensures
            r@ == IrValS::Integer(v),
    {
        IrValue::Integer(v)
    }
}

impl vstd::std_specs::convert::FromSpecImpl<isize> for IrValue {
    open spec fn obeys_from_spec() -> bool {
        true
    }

    open spec fn from_spec(v: isize) -> Self {
        IrValue::Integer(v as i64)
    }
}

impl From<isize> for IrValue {
    fn from(v: isize) -> (r: Self)
        ensures
            r@ == IrValS::Integer(v as i64),
    {
        IrValue::Integer(v as i64)
    }
}

impl vstd::std_specs::convert::FromSpecImpl<u8> for IrValue {
    open spec fn obeys_from_spec() -> bool {
        true
    }

    open spec fn from_spec(v: u8) -> Self {
        IrValue::Integer(v as i64)
    }
}

impl From<u8> for IrValue {
    fn from(v: u8) -> (r: Self)
        ensures
            r@ == IrValS::Integer(v as i64),
    {
        IrValue::Integer(v as i64)
    }
}

impl vstd::std_specs::convert::FromSpecImpl<u16> for IrValue {
    open spec fn obeys_from_spec() -> bool {
        true
    }

    open spec fn from_spec(v: u16) -> Self {
        IrValue::Integer(v as i64)
    }
}

impl From<u16> for IrValue {
    fn from(v: u16) -> (r: Self)
        ensures
            r@ == IrValS::Integer(v as i64),
    {
        IrValue::Integer(v as i64)
    }
}

impl vstd::std_specs::convert::FromSpecImpl<u32> for IrValue {
    open spec fn obeys_from_spec() -> bool {
        true
    }

    open spec fn from_spec(v: u32) -> Self {
        IrValue::Integer(v as i64)
    }
}

impl From<u32> for IrValue {
    fn from(v: u32) -> (r: Self)
        ensures
            r@ == IrValS::Integer(v as i64),
    {
        IrValue::Integer(v as i64)
    }
}

impl vstd::std_specs::convert::FromSpecImpl<String> for IrValue {
    open spec fn obeys_from_spec() -> bool {
        true
    }

    open spec fn from_spec(v: String) -> Self {
        IrValue::String(v)
    }
}

impl From<String> for IrValue {
    fn from(v: String) -> (r: Self)
        ensures
            r@ == IrValS::Str(v@),
    {
        IrValue::String(v)
    }
}

impl<'a> vstd::std_specs::convert::FromSpecImpl<&'a str> for IrValue {
    open spec fn obeys_from_spec() -> bool {
        false
    }

    open spec fn from_spec(v: &'a str) -> Self {
        IrValue::Null
    }
}

impl<'a> From<&'a str> for IrValue {
    fn from(v: &'a str) -> (r: Self)
        ensures
            r@ == IrValS::Str(v@),
    {
        IrValue::String(String::from_str(v))
    }
}

impl vstd::std_specs::convert::FromSpecImpl<Vec<u8>> for IrValue {
    open spec fn obeys_from_spec() -> bool {
        true
    }

    open spec fn from_spec(v: Vec<u8>) -> Self {
        IrValue::Binary(v)
    }
}

impl From<Vec<u8>> for IrValue {
    fn from(v: Vec<u8>) -> (r: Self)
        ensures
            r@ == IrValS::Binary(v@),
    {
        IrValue::Binary(v)
    }
}

impl<'a> vstd::std_specs::convert::FromSpecImpl<&'a [u8]> for IrValue {
    open spec fn obeys_from_spec() -> bool {
        false
    }

    open spec fn from_spec(v: &'a [u8]) -> Self {
        IrValue::Null
    }
}

impl<'a> From<&'a [u8]> for IrValue {
    fn from(v: &'a [u8]) -> (r: Self)
        ensures
            r@ == IrValS::Binary(v@),
    {
        IrValue::Binary(vstd::slice::slice_to_vec(v))
    }
}

impl vstd::std_specs::convert::FromSpecImpl<Vec<IrValue>> for IrValue {
    open spec fn obeys_from_spec() -> bool {
        true
    }

    open spec fn from_spec(v: Vec<IrValue>) -> Self {
        IrValue::Array(v)
    }
}

impl From<Vec<IrValue>> for IrValue {
    fn from(v: Vec<IrValue>) -> (r: Self)
        ensures
            r@ == IrValS::Array(vals_view(v@)),
    {
        IrValue::Array(v)
    }
}

impl vstd::std_specs::convert::FromSpecImpl<Vec<(String, IrValue)>> for IrValue {
    open spec fn obeys_from_spec() -> bool {
        true
    }

    open spec fn from_spec(v: Vec<(String, IrValue)>) -> Self {
        IrValue::Mapping(v)
    }
}

impl From<Vec<(String, IrValue)>> for IrValue {
    fn from(v: Vec<(String, IrValue)>) -> (r: Self)
        ensures
            r@ == IrValS::Mapping(entries_view(v@)),
    {
        IrValue::Mapping(v)
    }
}

impl vstd::std_specs::convert::FromSpecImpl<IrTimestamp> for IrValue {
    open spec fn obeys_from_spec() -> bool {
        true
    }

    open spec fn from_spec(v: IrTimestamp) -> Self {
        IrValue::Timestamp(v)
    }
}

impl From<IrTimestamp> for IrValue {
    fn from(v: IrTimestamp) -> (r: Self)
        ensures
            r@ == IrValS::Timestamp(v.seconds, v.nanos),
    {
        IrValue::Timestamp(v)
    }
}

impl vstd::std_specs::convert::FromSpecImpl<IrBundle> for IrValue {
    open spec fn obeys_from_spec() -> bool {
        true
    }

    open spec fn from_spec(v: IrBundle) -> Self {
        IrValue::Bundle(v)
    }
}

impl From<IrBundle> for IrValue {
    fn from(v: IrBundle) -> (r: Self)
        ensures
            r@ == IrValS::Bundle(v@),
    {
        IrValue::Bundle(v)
    }
}

impl vstd::std_specs::convert::FromSpecImpl<IrTimetag> for IrBundle {
    open spec fn obeys_from_spec() -> bool {
        false
    }

    open spec fn from_spec(timetag: IrTimetag) -> Self {
        arbitrary()
    }
}

impl From<IrTimetag> for IrBundle {
    fn from(timetag: IrTimetag) -> (r: Self)
        ensures
            r@.timetag == timetag.value,
            r@.elements == Seq::<IrElemS>::empty(),
    {
        IrBundle { timetag, elements: Vec::new() }
    }
}

impl vstd::std_specs::convert::FromSpecImpl<IrValue> for IrBundleElement {
    open spec fn obeys_from_spec() -> bool {
        true
    }

    open spec fn from_spec(value: IrValue) -> Self {
        IrBundleElement::Message(value)
    }
}

impl From<IrValue> for IrBundleElement {
    fn from(value: IrValue) -> (r: Self)
        ensures
            r@ == IrElemS::Message(value@),
    {
        IrBundleElement::Message(value)
    }
}

impl vstd::std_specs::convert::FromSpecImpl<IrBundle> for IrBundleElement {
    open spec fn obeys_from_spec() -> bool {
        true
    }

    open spec fn from_spec(bundle: IrBundle) -> Self {
        IrBundleElement::Bundle(bundle)
    }
}

impl From<IrBundle> for IrBundleElement {
    fn from(bundle: IrBundle) -> (r: Self)
        ensures
            r@ == IrElemS::Bundle(bundle@),
    {
        IrBundleElement::Bundle(bundle)
    }
}

impl Clone for IrValue {
    /// Deep copy; the copy has the same mathematical model as the original.
    fn clone(&self) -> (res: Self)
        ensures
            res@ == self@,
    {
        clone_value(self)
    }
}

impl Clone for IrBundleElement {
    /// Deep copy; the copy has the same mathematical model as the original.
    fn clone(&self) -> (res: Self)
        ensures
            res@ == self@,
    {
        clone_elem(self)
    }
}

impl Clone for IrBundle {
    /// Deep copy; the copy has the same mathematical model as the original.
    fn clone(&self) -> (res: Self)
        ensures
            res@ == self@,
    {
        clone_bundle(self)
    }
}

} // verus!
