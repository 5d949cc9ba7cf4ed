//! Elements of a collection: the registered element kinds, their capability
//! descriptor, the raw value encodings, and the per-element null/value
//! envelope used when elements are not written as bare raw values.

use vstd::prelude::*;

use crate::cursor::{parse_varu32, varu32_bytes, Reader, Writer};
use crate::error::Error;

verus! {

/// Wire type identifier of a 32-bit signed integer element.
pub const INT32_TYPE_ID: u32 = 4;

/// Wire type identifier of a byte-string element (text travels as its bytes).
pub const BINARY_TYPE_ID: u32 = 13;

/// Wire type identifier of a byte-string-keyed 32-bit integer entry element.
pub const ENTRY_TYPE_ID: u32 = 14;

/// Wire type identifier of the generic list collection.
pub const LIST_TYPE_ID: u32 = 21;

/// Wire type identifier of the generic set collection.
pub const SET_TYPE_ID: u32 = 22;

/// Wire type identifier of the generic map collection.
pub const MAP_TYPE_ID: u32 = 23;

/// First identifier of the packed primitive-array family.
pub const FIRST_PRIMITIVE_ARRAY_TYPE_ID: u32 = 37;

/// Wire type identifier of a packed 32-bit integer array.
pub const INT32_ARRAY_TYPE_ID: u32 = 39;

/// Last identifier of the packed primitive-array family.
pub const LAST_PRIMITIVE_ARRAY_TYPE_ID: u32 = 44;

/// The packed primitive-array family: length-prefixed raw-value runs, not
/// bit-compatible with the generic collection encodings.
pub open spec fn is_primitive_array_type_id(id: u32) -> bool {
    FIRST_PRIMITIVE_ARRAY_TYPE_ID <= id <= LAST_PRIMITIVE_ARRAY_TYPE_ID
}

/// Runs the primitive-array family test.
pub fn is_primitive_array_id(id: u32) -> (r: bool)
    ensures
        r == is_primitive_array_type_id(id),
{
    FIRST_PRIMITIVE_ARRAY_TYPE_ID <= id && id <= LAST_PRIMITIVE_ARRAY_TYPE_ID
}

/// Capability descriptor of an element type. Collection logic only ever
/// queries this descriptor, never a concrete element type.
#[derive(Clone, Copy, Debug, PartialEq, Eq, Structural)]
pub struct ElemType {
    /// Wire type identifier of the element type.
    pub type_id: u32,
    /// The concrete runtime type may vary from element to element, so each
    /// element must carry its own type identity.
    pub is_polymorphic: bool,
    /// Elements take part in reference-identity tracking and always travel
    /// through the full envelope.
    pub is_shared_ref: bool,
    /// Elements of this type are capable of being absent.
    pub is_option: bool,
}

/// One element value.
#[derive(Debug)]
pub enum Value {
    /// An absent element.
    Null,
    /// A 32-bit signed integer.
    I32(i32),
    /// A byte string.
    Bytes(Vec<u8>),
    /// A byte-string-keyed 32-bit integer entry, as a map travels element-wise.
    Entry(Vec<u8>, i32),
}

/// The mathematical model of an element value.
pub ghost enum ElemModel {
    Null,
    I32(int),
    Bytes(Seq<u8>),
    Entry(Seq<u8>, int),
}

impl View for Value {
    type V = ElemModel;

    open spec fn view(&self) -> ElemModel {
        match self {
            Value::Null => ElemModel::Null,
            Value::I32(x) => ElemModel::I32(*x as int),
            Value::Bytes(b) => ElemModel::Bytes(b@),
            Value::Entry(k, v) => ElemModel::Entry(k@, *v as int),
        }
    }
}

/// The models of a sequence of values.
pub open spec fn models(s: Seq<Value>) -> Seq<ElemModel> {
    Seq::new(s.len(), |i: int| s[i]@)
}

/// Byte-wise comparison of two byte strings.
fn bytes_eq(a: &Vec<u8>, b: &Vec<u8>) -> (r: bool)
    ensures
        r == (a@ == b@),
{
    if a.len() != b.len() {
        return false;
    }
    let mut i: usize = 0;
    while i < a.len()
        invariant
            i <= a@.len(),
            a@.len() == b@.len(),
            forall|j: int| 0 <= j < i ==> a@[j] == b@[j],
        decreases a@.len() - i,
    {
        if a[i] != b[i] {
            return false;
        }
        i = i + 1;
    }
    proof {
        assert(a@ =~= b@);
    }
    true
}

impl PartialEq for Value {
    fn eq(&self, other: &Value) -> (r: bool) {
        match (self, other) {
            (Value::Null, Value::Null) => true,
            (Value::I32(a), Value::I32(b)) => a == b,
            (Value::Bytes(a), Value::Bytes(b)) => bytes_eq(a, b),
            (Value::Entry(ak, av), Value::Entry(bk, bv)) => bytes_eq(ak, bk) && av == bv,
            _ => false,
        }
    }
}

impl vstd::std_specs::cmp::PartialEqSpecImpl for Value {
    open spec fn obeys_eq_spec() -> bool {
        true
    }

    open spec fn eq_spec(&self, other: &Value) -> bool {
        self@ == other@
    }
}

/// The wire type identifier a value carries when written polymorphically.
pub open spec fn value_type_id(m: ElemModel) -> u32 {
    match m {
        ElemModel::Null => 0,
        ElemModel::I32(_) => INT32_TYPE_ID,
        ElemModel::Bytes(_) => BINARY_TYPE_ID,
        ElemModel::Entry(_, _) => ENTRY_TYPE_ID,
    }
}

/// An element model that the wire can carry: integers are 32-bit values and
/// byte strings fit behind a 32-bit length prefix.
pub open spec fn elem_wf(m: ElemModel) -> bool {
    match m {
        ElemModel::Null => true,
        ElemModel::I32(n) => -0x8000_0000 <= n < 0x8000_0000,
        ElemModel::Bytes(b) => b.len() < 0x1_0000_0000,
        ElemModel::Entry(k, v) => k.len() < 0x1_0000_0000 && -0x8000_0000 <= v < 0x8000_0000,
    }
}

/// The unsigned 32-bit wire image of a signed 32-bit value.
pub open spec fn u32_of_int(n: int) -> nat {
    if n >= 0 {
        n as nat
    } else {
        (n + 0x1_0000_0000) as nat
    }
}

/// The signed 32-bit value behind an unsigned 32-bit wire image.
pub open spec fn int_of_u32(n: nat) -> int {
    if n < 0x8000_0000 {
        n as int
    } else {
        n - 0x1_0000_0000
    }
}

/// The wire image is invertible on 32-bit signed values.
pub proof fn lemma_i32_wire_round_trip(n: int)
    requires
        -0x8000_0000 <= n < 0x8000_0000,
    ensures
        u32_of_int(n) < 0x1_0000_0000,
        int_of_u32(u32_of_int(n)) == n,
{
}

/// Computes the unsigned wire image of a signed value.
pub fn u32_from_i32(x: i32) -> (r: u32)
    ensures
        r as nat == u32_of_int(x as int),
{
    if x >= 0 {
        x as u32
    } else {
        ((x as i64) + 0x1_0000_0000) as u32
    }
}

/// Recovers the signed value behind an unsigned wire image.
pub fn i32_from_u32(n: u32) -> (r: i32)
    ensures
        r as int == int_of_u32(n as nat),
{
    if n < 0x8000_0000 {
        n as i32
    } else {
        ((n as i64) - 0x1_0000_0000) as i32
    }
}

/// A length-prefixed byte run.
pub open spec fn byte_run_bytes(b: Seq<u8>) -> Seq<u8> {
    varu32_bytes(b.len()) + b
}

/// Reads a length-prefixed byte run from the front of `s`.
pub open spec fn parse_byte_run(s: Seq<u8>) -> Option<(Seq<u8>, nat)> {
    match parse_varu32(s) {
        None => None,
        Some((n, k)) => if n < 0x1_0000_0000 && s.len() - k >= n {
            Some((s.skip(k as int).take(n as int), (k + n) as nat))
        } else {
            None
        },
    }
}

/// Byte runs read back as written, whatever bytes follow.
pub proof fn lemma_byte_run_round_trip(b: Seq<u8>, rest: Seq<u8>)
    requires
        b.len() < 0x1_0000_0000,
    ensures
        parse_byte_run(byte_run_bytes(b) + rest) == Some((b, byte_run_bytes(b).len())),
{
    let s = byte_run_bytes(b) + rest;
    crate::cursor::lemma_varu32_round_trip(b.len(), b + rest);
    assert(s =~= varu32_bytes(b.len()) + (b + rest));
    let k = varu32_bytes(b.len()).len();
    assert(s.skip(k as int) =~= b + rest);
    assert((b + rest).take(b.len() as int) =~= b);
}

/// The raw (envelope-free) encoding of a present value.
pub open spec fn raw_value_bytes(m: ElemModel) -> Seq<u8> {
    match m {
        ElemModel::Null => Seq::empty(),
        ElemModel::I32(n) => varu32_bytes(u32_of_int(n)),
        ElemModel::Bytes(b) => byte_run_bytes(b),
        ElemModel::Entry(k, v) => byte_run_bytes(k) + varu32_bytes(u32_of_int(v)),
    }
}

/// Reads one raw value of the element kind `type_id` from the front of `s`.
pub open spec fn parse_raw(s: Seq<u8>, type_id: u32) -> Option<(ElemModel, nat)> {
    if type_id == INT32_TYPE_ID {
        match parse_varu32(s) {
            None => None,
            Some((n, k)) => if n < 0x1_0000_0000 {
                Some((ElemModel::I32(int_of_u32(n)), k))
            } else {
                None
            },
        }
    } else if type_id == BINARY_TYPE_ID {
        match parse_byte_run(s) {
            None => None,
            Some((b, k)) => Some((ElemModel::Bytes(b), k)),
        }
    } else if type_id == ENTRY_TYPE_ID {
        match parse_byte_run(s) {
            None => None,
            Some((kb, k1)) => match parse_varu32(s.skip(k1 as int)) {
                None => None,
                Some((n, k2)) => if n < 0x1_0000_0000 {
                    Some((ElemModel::Entry(kb, int_of_u32(n)), (k1 + k2) as nat))
                } else {
                    None
                },
            },
        }
    } else {
        None
    }
}

/// Raw values read back as written under their own type identifier.
pub proof fn lemma_raw_round_trip(m: ElemModel, rest: Seq<u8>)
    requires
        elem_wf(m),
        !(m is Null),
    ensures
        parse_raw(raw_value_bytes(m) + rest, value_type_id(m)) == Some(
            (m, raw_value_bytes(m).len()),
        ),
{
    match m {
        ElemModel::Null => {
        },
        ElemModel::I32(n) => {
            lemma_i32_wire_round_trip(n);
            crate::cursor::lemma_varu32_round_trip(u32_of_int(n), rest);
        },
        ElemModel::Bytes(b) => {
            lemma_byte_run_round_trip(b, rest);
        },
        ElemModel::Entry(kb, v) => {
            lemma_i32_wire_round_trip(v);
            let vb = varu32_bytes(u32_of_int(v));
            let s = raw_value_bytes(m) + rest;
            assert(s =~= byte_run_bytes(kb) + (vb + rest));
            lemma_byte_run_round_trip(kb, vb + rest);
            let k1 = byte_run_bytes(kb).len();
            assert(s.skip(k1 as int) =~= vb + rest);
            crate::cursor::lemma_varu32_round_trip(u32_of_int(v), rest);
        },
    }
}

/// Marker byte of an absent element.
pub const NULL_MARKER: u8 = 0;

/// Marker byte of a present element.
pub const VALUE_MARKER: u8 = 1;

/// Envelope-lite encoding, for elements that are neither polymorphic nor
/// reference-tracked: the marker byte is omitted entirely when `skip_ref`
/// holds, and is a minimal null/value marker otherwise (never a reference
/// identifier, since these elements are not shared).
pub open spec fn lite_elem_bytes(m: ElemModel, skip_ref: bool) -> Seq<u8> {
    if skip_ref {
        raw_value_bytes(m)
    } else if m is Null {
        seq![NULL_MARKER]
    } else {
        seq![VALUE_MARKER] + raw_value_bytes(m)
    }
}

/// Reads one envelope-lite element of kind `type_id` from the front of `s`.
pub open spec fn parse_lite_elem(s: Seq<u8>, skip_ref: bool, type_id: u32) -> Option<
    (ElemModel, nat),
> {
    if skip_ref {
        parse_raw(s, type_id)
    } else if s.len() == 0 {
        None
    } else if s[0] == NULL_MARKER {
        Some((ElemModel::Null, 1))
    } else if s[0] == VALUE_MARKER {
        match parse_raw(s.skip(1), type_id) {
            None => None,
            Some((m, k)) => Some((m, (k + 1) as nat)),
        }
    } else {
        None
    }
}

/// Full-envelope encoding, for polymorphic or reference-tracked elements:
/// a mandatory marker, the element's own type identifier when polymorphic,
/// then the raw value.
pub open spec fn full_elem_bytes(m: ElemModel, poly: bool) -> Seq<u8> {
    if m is Null {
        seq![NULL_MARKER]
    } else if poly {
        seq![VALUE_MARKER] + varu32_bytes(value_type_id(m) as nat) + raw_value_bytes(m)
    } else {
        seq![VALUE_MARKER] + raw_value_bytes(m)
    }
}

/// Reads one full-envelope element from the front of `s`.
pub open spec fn parse_full_elem(s: Seq<u8>, poly: bool, type_id: u32) -> Option<
    (ElemModel, nat),
> {
    if s.len() == 0 {
        None
    } else if s[0] == NULL_MARKER {
        Some((ElemModel::Null, 1))
    } else if s[0] == VALUE_MARKER {
        if poly {
            match parse_varu32(s.skip(1)) {
                None => None,
                Some((tid, k1)) => if tid < 0x1_0000_0000 {
                    match parse_raw(s.skip(1 + k1 as int), tid as u32) {
                        None => None,
                        Some((m, k2)) => Some((m, (1 + k1 + k2) as nat)),
                    }
                } else {
                    None
                },
            }
        } else {
            match parse_raw(s.skip(1), type_id) {
                None => None,
                Some((m, k)) => Some((m, (k + 1) as nat)),
            }
        }
    } else {
        None
    }
}

/// How one element travels under the element type `et`: through the full
/// envelope for polymorphic or shared elements, envelope-lite otherwise.
pub open spec fn elem_bytes(m: ElemModel, et: ElemType, skip_ref: bool) -> Seq<u8> {
    if et.is_polymorphic || et.is_shared_ref {
        full_elem_bytes(m, et.is_polymorphic)
    } else {
        lite_elem_bytes(m, skip_ref)
    }
}

/// Reads one element under the element type `et` from the front of `s`.
pub open spec fn parse_elem(s: Seq<u8>, et: ElemType, skip_ref: bool) -> Option<(ElemModel, nat)> {
    if et.is_polymorphic || et.is_shared_ref {
        parse_full_elem(s, et.is_polymorphic, et.type_id)
    } else {
        parse_lite_elem(s, skip_ref, et.type_id)
    }
}

/// What must hold of an element for it to travel under `et` with `skip_ref`.
pub open spec fn elem_ok(m: ElemModel, et: ElemType, skip_ref: bool) -> bool {
    &&& elem_wf(m)
    &&& (m is Null ==> et.is_option)
    &&& (!et.is_polymorphic && !et.is_shared_ref && skip_ref ==> !(m is Null))
    &&& (!(m is Null) && !et.is_polymorphic ==> value_type_id(m) == et.type_id)
}

/// One element reads back as written.
pub proof fn lemma_elem_round_trip(m: ElemModel, et: ElemType, skip_ref: bool, rest: Seq<u8>)
    requires
        elem_ok(m, et, skip_ref),
    ensures
        parse_elem(elem_bytes(m, et, skip_ref) + rest, et, skip_ref) == Some(
            (m, elem_bytes(m, et, skip_ref).len()),
        ),
{
    let s = elem_bytes(m, et, skip_ref) + rest;
    if et.is_polymorphic || et.is_shared_ref {
        if m is Null {
            assert(s[0] == NULL_MARKER);
        } else if et.is_polymorphic {
            let tid = value_type_id(m);
            let tb = varu32_bytes(tid as nat);
            let rb = raw_value_bytes(m);
            assert(s[0] == VALUE_MARKER);
            assert(s.skip(1) =~= tb + (rb + rest));
            crate::cursor::lemma_varu32_round_trip(tid as nat, rb + rest);
            assert(s.skip(1 + tb.len() as int) =~= rb + rest);
            lemma_raw_round_trip(m, rest);
        } else {
            assert(s[0] == VALUE_MARKER);
            assert(s.skip(1) =~= raw_value_bytes(m) + rest);
            lemma_raw_round_trip(m, rest);
        }
    } else {
        if skip_ref {
            lemma_raw_round_trip(m, rest);
        } else if m is Null {
            assert(s[0] == NULL_MARKER);
        } else {
            assert(s[0] == VALUE_MARKER);
            assert(s.skip(1) =~= raw_value_bytes(m) + rest);
            lemma_raw_round_trip(m, rest);
        }
    }
}

/// The elements of a collection, in index order.
pub open spec fn elems_bytes(items: Seq<ElemModel>, et: ElemType, skip_ref: bool) -> Seq<u8>
    decreases items.len(),
{
    if items.len() == 0 {
        Seq::empty()
    } else {
        elem_bytes(items[0], et, skip_ref) + elems_bytes(items.skip(1), et, skip_ref)
    }
}

/// Reads `n` elements from the front of `s`.
pub open spec fn parse_elems(s: Seq<u8>, et: ElemType, skip_ref: bool, n: nat) -> Option<
    (Seq<ElemModel>, nat),
>
    decreases n,
{
    if n == 0 {
        Some((Seq::empty(), 0))
    } else {
        match parse_elem(s, et, skip_ref) {
            None => None,
            Some((m, k1)) => match parse_elems(s.skip(k1 as int), et, skip_ref, (n - 1) as nat) {
                None => None,
                Some((ms, k2)) => Some((seq![m] + ms, (k1 + k2) as nat)),
            },
        }
    }
}

/// Every element can travel under `et` with `skip_ref`.
pub open spec fn items_ok(items: Seq<ElemModel>, et: ElemType, skip_ref: bool) -> bool {
    forall|i: int| 0 <= i < items.len() ==> elem_ok(#[trigger] items[i], et, skip_ref)
}

/// Appending one element to a collection appends its encoding.
pub proof fn lemma_elems_bytes_push(s: Seq<ElemModel>, m: ElemModel, et: ElemType, skip_ref: bool)
    ensures
        elems_bytes(s.push(m), et, skip_ref) == elems_bytes(s, et, skip_ref) + elem_bytes(
            m,
            et,
            skip_ref,
        ),
    decreases s.len(),
{
    if s.len() == 0 {
        assert(s.push(m)[0] == m);
        assert(s.push(m).skip(1) =~= Seq::<ElemModel>::empty());
        assert(elems_bytes(s.push(m), et, skip_ref) == elem_bytes(m, et, skip_ref) + elems_bytes(
            s.push(m).skip(1),
            et,
            skip_ref,
        ));
        assert(elem_bytes(m, et, skip_ref) + Seq::<u8>::empty() =~= elem_bytes(m, et, skip_ref));
        assert(elems_bytes(s, et, skip_ref) + elem_bytes(m, et, skip_ref) =~= elem_bytes(
            m,
            et,
            skip_ref,
        ));
    } else {
        lemma_elems_bytes_push(s.skip(1), m, et, skip_ref);
        assert(s.push(m).skip(1) =~= s.skip(1).push(m));
        assert(s.push(m)[0] == s[0]);
        assert(elem_bytes(s[0], et, skip_ref) + (elems_bytes(s.skip(1), et, skip_ref) + elem_bytes(
            m,
            et,
            skip_ref,
        )) =~= (elem_bytes(s[0], et, skip_ref) + elems_bytes(s.skip(1), et, skip_ref)) + elem_bytes(
            m,
            et,
            skip_ref,
        ));
    }
}

/// An element sequence reads back as written, whatever bytes follow.
pub proof fn lemma_elems_round_trip(
    items: Seq<ElemModel>,
    et: ElemType,
    skip_ref: bool,
    rest: Seq<u8>,
)
    requires
        items_ok(items, et, skip_ref),
    ensures
        parse_elems(elems_bytes(items, et, skip_ref) + rest, et, skip_ref, items.len()) == Some(
            (items, elems_bytes(items, et, skip_ref).len()),
        ),
    decreases items.len(),
{
    if items.len() == 0 {
        assert(items =~= Seq::<ElemModel>::empty());
    } else {
        let m = items[0];
        let tail = items.skip(1);
        let tail_bytes = elems_bytes(tail, et, skip_ref);
        let head_bytes = elem_bytes(m, et, skip_ref);
        lemma_elem_round_trip(m, et, skip_ref, tail_bytes + rest);
        assert(elems_bytes(items, et, skip_ref) + rest =~= head_bytes + (tail_bytes + rest));
        assert((head_bytes + (tail_bytes + rest)).skip(head_bytes.len() as int) =~= tail_bytes
            + rest);
        lemma_elems_round_trip(tail, et, skip_ref, rest);
        assert(seq![m] + tail =~= items);
    }
}

impl Writer {
    /// Writes one raw (envelope-free) value.
    pub fn write_raw_value(&mut self, item: &Value)
        requires
            elem_wf(item@),
            !(item@ is Null),
        ensures
            final(self).buf@ == old(self).buf@ + raw_value_bytes(item@),
    {
        match item {
            Value::Null => {
                proof {
                    assert(false);
                }
            },
            Value::I32(x) => {
                self.write_varuint32(u32_from_i32(*x));
            },
            Value::Bytes(b) => {
                self.write_varuint32(b.len() as u32);
                self.write_bytes(b);
                assert(self.buf@ =~= old(self).buf@ + raw_value_bytes(item@));
            },
            Value::Entry(k, v) => {
                self.write_varuint32(k.len() as u32);
                self.write_bytes(k);
                self.write_varuint32(u32_from_i32(*v));
                assert(self.buf@ =~= old(self).buf@ + raw_value_bytes(item@));
            },
        }
    }

    /// Writes one element through the envelope-aware raw writer: under
    /// `skip_ref_flag` the null/value marker is omitted and only the value
    /// is emitted.
    pub fn write_ref_info_data(&mut self, item: &Value, skip_ref_flag: bool)
        requires
            elem_wf(item@),
            skip_ref_flag ==> !(item@ is Null),
        ensures
            final(self).buf@ == old(self).buf@ + lite_elem_bytes(item@, skip_ref_flag),
    {
        if skip_ref_flag {
            self.write_raw_value(item);
        } else if matches!(item, Value::Null) {
            self.write_u8(NULL_MARKER);
        } else {
            self.write_u8(VALUE_MARKER);
            self.write_raw_value(item);
            assert(self.buf@ =~= old(self).buf@ + lite_elem_bytes(item@, skip_ref_flag));
        }
    }

    /// Writes one element through the full envelope, with its own type
    /// identifier when the element type is polymorphic.
    pub fn write_element_full(&mut self, item: &Value, poly: bool)
        requires
            elem_wf(item@),
        ensures
            final(self).buf@ == old(self).buf@ + full_elem_bytes(item@, poly),
    {
        if matches!(item, Value::Null) {
            self.write_u8(NULL_MARKER);
        } else {
            self.write_u8(VALUE_MARKER);
            if poly {
                let tid = match item {
                    Value::Null => 0,
                    Value::I32(_) => INT32_TYPE_ID,
                    Value::Bytes(_) => BINARY_TYPE_ID,
                    Value::Entry(_, _) => ENTRY_TYPE_ID,
                };
                self.write_varuint32(tid);
            }
            self.write_raw_value(item);
            assert(self.buf@ =~= old(self).buf@ + full_elem_bytes(item@, poly));
        }
    }

    /// Writes one element as the element type `et` dictates.
    pub fn write_element(&mut self, item: &Value, et: &ElemType, skip_ref_flag: bool)
        requires
            elem_wf(item@),
            !et.is_polymorphic && !et.is_shared_ref && skip_ref_flag ==> !(item@ is Null),
        ensures
            final(self).buf@ == old(self).buf@ + elem_bytes(item@, *et, skip_ref_flag),
    {
        if et.is_polymorphic || et.is_shared_ref {
            self.write_element_full(item, et.is_polymorphic);
        } else {
            self.write_ref_info_data(item, skip_ref_flag);
        }
    }
}

impl Reader {
    /// Reads one raw value of the element kind `type_id`.
    pub fn read_raw_value(&mut self, type_id: u32) -> (r: Result<Value, Error>)
        requires
            old(self).wf(),
        ensures
            final(self).wf(),
            final(self).buf == old(self).buf,
            match r {
                Ok(v) => {
                    &&& parse_raw(old(self).remaining(), type_id) matches Some((m, k)) && m == v@
                        && final(self).pos == old(self).pos + k
                    &&& !(v@ is Null)
                },
                Err(_) => parse_raw(old(self).remaining(), type_id) is None,
            },
    {
        if type_id == INT32_TYPE_ID {
            match self.read_varuint32() {
                Ok(n) => Ok(Value::I32(i32_from_u32(n))),
                Err(e) => Err(e),
            }
        } else if type_id == BINARY_TYPE_ID {
            match self.read_byte_run() {
                Ok(b) => Ok(Value::Bytes(b)),
                Err(e) => Err(e),
            }
        } else if type_id == ENTRY_TYPE_ID {
            let kb = match self.read_byte_run() {
                Ok(kb) => kb,
                Err(e) => {
                    return Err(e);
                },
            };
            proof {
                let (b, k1) = parse_byte_run(old(self).remaining()).unwrap();
                assert(self.remaining() =~= old(self).remaining().skip(k1 as int));
            }
            match self.read_varuint32() {
                Ok(n) => Ok(Value::Entry(kb, i32_from_u32(n))),
                Err(e) => Err(e),
            }
        } else {
            Err(Error::TypeMismatch)
        }
    }

    /// Reads one length-prefixed byte run.
    pub fn read_byte_run(&mut self) -> (r: Result<Vec<u8>, Error>)
        requires
            old(self).wf(),
        ensures
            final(self).wf(),
            final(self).buf == old(self).buf,
            match r {
                Ok(v) => parse_byte_run(old(self).remaining()) matches Some((b, k)) && b == v@
                    && final(self).pos == old(self).pos + k,
                Err(_) => parse_byte_run(old(self).remaining()) is None,
            },
    {
        let n = match self.read_varuint32() {
            Ok(n) => n,
            Err(e) => {
                return Err(e);
            },
        };
        proof {
            let (nv, k) = parse_varu32(old(self).remaining()).unwrap();
            assert(self.remaining() =~= old(self).remaining().skip(k as int));
        }
        match self.read_bytes(n) {
            Ok(v) => Ok(v),
            Err(e) => Err(e),
        }
    }

    /// Reads one envelope-lite element of kind `type_id`.
    pub fn read_ref_info_data(&mut self, skip_ref_flag: bool, type_id: u32) -> (r: Result<
        Value,
        Error,
    >)
        requires
            old(self).wf(),
        ensures
            final(self).wf(),
            final(self).buf == old(self).buf,
            match r {
                Ok(v) => parse_lite_elem(old(self).remaining(), skip_ref_flag, type_id)
                    matches Some((m, k)) && m == v@ && final(self).pos == old(self).pos + k,
                Err(_) => parse_lite_elem(old(self).remaining(), skip_ref_flag, type_id) is None,
            },
    {
        if skip_ref_flag {
            return self.read_raw_value(type_id);
        }
        let marker = match self.read_u8() {
            Ok(b) => b,
            Err(e) => {
                return Err(e);
            },
        };
        if marker == NULL_MARKER {
            Ok(Value::Null)
        } else if marker == VALUE_MARKER {
            match self.read_raw_value(type_id) {
                Ok(v) => Ok(v),
                Err(e) => Err(e),
            }
        } else {
            Err(Error::BadEnvelope)
        }
    }

    /// Reads one full-envelope element.
    pub fn read_element_full(&mut self, poly: bool, type_id: u32) -> (r: Result<Value, Error>)
        requires
            old(self).wf(),
        ensures
            final(self).wf(),
            final(self).buf == old(self).buf,
            match r {
                Ok(v) => parse_full_elem(old(self).remaining(), poly, type_id) matches Some(
                    (m, k),
                ) && m == v@ && final(self).pos == old(self).pos + k,
                Err(_) => parse_full_elem(old(self).remaining(), poly, type_id) is None,
            },
    {
        let marker = match self.read_u8() {
            Ok(b) => b,
            Err(e) => {
                return Err(e);
            },
        };
        if marker == NULL_MARKER {
            Ok(Value::Null)
        } else if marker == VALUE_MARKER {
            if poly {
                let tid = match self.read_varuint32() {
                    Ok(tid) => tid,
                    Err(e) => {
                        return Err(e);
                    },
                };
                let ghost mid = self.remaining();
                proof {
                    let (n1, k1) = parse_varu32(old(self).remaining().skip(1)).unwrap();
                    assert(mid =~= old(self).remaining().skip(1 + k1 as int));
                }
                self.read_raw_value(tid)
            } else {
                self.read_raw_value(type_id)
            }
        } else {
            Err(Error::BadEnvelope)
        }
    }

    /// Reads one element as the element type `et` dictates.
    pub fn read_element(&mut self, et: &ElemType, skip_ref_flag: bool) -> (r: Result<Value, Error>)
        requires
            old(self).wf(),
        ensures
            final(self).wf(),
            final(self).buf == old(self).buf,
            match r {
                Ok(v) => parse_elem(old(self).remaining(), *et, skip_ref_flag) matches Some(
                    (m, k),
                ) && m == v@ && final(self).pos == old(self).pos + k,
                Err(_) => parse_elem(old(self).remaining(), *et, skip_ref_flag) is None,
            },
    {
        if et.is_polymorphic || et.is_shared_ref {
            self.read_element_full(et.is_polymorphic, et.type_id)
        } else {
            self.read_ref_info_data(skip_ref_flag, et.type_id)
        }
    }
}

} // verus!
