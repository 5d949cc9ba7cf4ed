//! The collection header protocol and the three decode paths: the header
//! flags chosen at write time, the allocating decode path, and the in-place
//! decode path that reuses caller storage.

use std::collections::BTreeMap;
use std::collections::HashMap;
use std::collections::HashSet;

use vstd::prelude::*;

use crate::cursor::{parse_varu32, varu32_bytes, Reader, Writer};
use crate::error::Error;
use crate::value::{
    elem_ok, elem_wf, elems_bytes, is_primitive_array_id, is_primitive_array_type_id, models,
    parse_elem, parse_elems, value_type_id, ElemModel, ElemType, Value,
};

verus! {

/// Header flag: at least one element is absent.
pub const HAS_NULL: u8 = 0b10;

/// Header flag: the element type is already known statically by both sides,
/// so per-collection element-type metadata is suppressed.
const DECL_ELEMENT_TYPE: u8 = 0b100;

/// Header flag: every element is a concrete instance of exactly one runtime
/// type, enabling the envelope-free element path.
pub const IS_SAME_TYPE: u8 = 0b1000;

/// Whether the `HAS_NULL` bit of a header byte is set.
pub open spec fn header_has_null(h: u8) -> bool {
    (h / 2) % 2 == 1
}

/// Whether the `DECL_ELEMENT_TYPE` bit of a header byte is set.
pub open spec fn header_declared(h: u8) -> bool {
    (h / 4) % 2 == 1
}

/// Whether the `IS_SAME_TYPE` bit of a header byte is set.
pub open spec fn header_same_type(h: u8) -> bool {
    (h / 8) % 2 == 1
}

/// The header byte packed from the three flags; the flag values are
/// disjoint bits, so the pack is a plain sum.
pub open spec fn header_byte(has_null: bool, declared: bool, same_type: bool) -> u8 {
    ((if has_null {
        2int
    } else {
        0int
    }) + (if declared {
        4int
    } else {
        0int
    }) + (if same_type {
        8int
    } else {
        0int
    })) as u8
}

/// Each flag reads back from the packed header byte.
pub proof fn lemma_header_bits(has_null: bool, declared: bool, same_type: bool)
    ensures
        header_has_null(header_byte(has_null, declared, same_type)) == has_null,
        header_declared(header_byte(has_null, declared, same_type)) == declared,
        header_same_type(header_byte(has_null, declared, same_type)) == same_type,
{
}

/// Some element is absent.
pub open spec fn spec_has_null(items: Seq<ElemModel>) -> bool {
    exists|i: int| 0 <= i < items.len() && items[i] is Null
}

/// The header byte a collection is written with.
pub open spec fn collection_header(items: Seq<ElemModel>, et: ElemType, is_field: bool) -> u8 {
    header_byte(et.is_option && spec_has_null(items), is_field, !et.is_polymorphic)
}

/// The envelope-lite marker omission decision, recomputed identically by
/// writer and reader from the same header: element type homogeneous and no
/// element absent.
pub open spec fn spec_skip_ref_flag(items: Seq<ElemModel>, et: ElemType) -> bool {
    !et.is_polymorphic && !(et.is_option && spec_has_null(items))
}

/// Type metadata as it travels: nothing when the type is statically
/// declared, its identifier as a varint otherwise.
pub open spec fn type_info_bytes(is_field: bool, type_id: u32) -> Seq<u8> {
    if is_field {
        Seq::empty()
    } else {
        varu32_bytes(type_id as nat)
    }
}

/// What must hold of a collection's elements for them to travel under `et`:
/// the length fits the varint, every element is well formed, absent elements
/// only occur for a type capable of absence, and under a homogeneous element
/// type every present element is of exactly that type.
pub open spec fn wf_items(items: Seq<ElemModel>, et: ElemType) -> bool {
    &&& items.len() < 0x1_0000_0000
    &&& forall|i: int| 0 <= i < items.len() ==> elem_wf(#[trigger] items[i])
    &&& forall|i: int| 0 <= i < items.len() && (#[trigger] items[i]) is Null ==> et.is_option
    &&& forall|i: int|
        0 <= i < items.len() && !((#[trigger] items[i]) is Null) && !et.is_polymorphic
            ==> value_type_id(items[i]) == et.type_id
}

/// The on-wire record of one collection instance: the length, and, when the
/// collection is not empty, the header byte, the element type metadata and
/// the elements.
pub open spec fn encode_collection(items: Seq<ElemModel>, et: ElemType, is_field: bool) -> Seq<
    u8,
> {
    if items.len() == 0 {
        varu32_bytes(0)
    } else {
        varu32_bytes(items.len()) + seq![collection_header(items, et, is_field)] + type_info_bytes(
            is_field,
            et.type_id,
        ) + elems_bytes(items, et, spec_skip_ref_flag(items, et))
    }
}

/// Reads one collection record from the front of `s`, expecting elements of
/// type `et`: the elements and the bytes consumed, or `None` on any
/// malformed, mismatched or truncated input.
pub open spec fn parse_collection(s: Seq<u8>, et: ElemType) -> Option<(Seq<ElemModel>, nat)> {
    match parse_varu32(s) {
        None => None,
        Some((len, k1)) => if len >= 0x1_0000_0000 {
            None
        } else if len == 0 {
            Some((Seq::empty(), k1))
        } else {
            let s1 = s.skip(k1 as int);
            if s1.len() == 0 {
                None
            } else {
                let h = s1[0];
                let s2 = s1.skip(1);
                let ti = if header_declared(h) {
                    Some(0 as nat)
                } else {
                    match parse_varu32(s2) {
                        None => None,
                        Some((id, k)) => if id == et.type_id as nat {
                            Some(k)
                        } else {
                            None
                        },
                    }
                };
                match ti {
                    None => None,
                    Some(k2) => {
                        let skip_ref = header_same_type(h) && !header_has_null(h);
                        match parse_elems(s2.skip(k2 as int), et, skip_ref, len) {
                            None => None,
                            Some((ms, k3)) => Some((ms, (k1 + 1 + k2 + k3) as nat)),
                        }
                    },
                }
            }
        },
    }
}

/// Well-formed elements can travel: each element meets the per-element
/// conditions of the envelope the collection dispatches it to.
pub proof fn lemma_wf_items_ok(items: Seq<ElemModel>, et: ElemType)
    requires
        wf_items(items, et),
    ensures
        crate::value::items_ok(items, et, spec_skip_ref_flag(items, et)),
{
    let skip_ref = spec_skip_ref_flag(items, et);
    assert forall|i: int| 0 <= i < items.len() implies elem_ok(#[trigger] items[i], et, skip_ref) by {
        if items[i] is Null {
            assert(et.is_option);
            assert(spec_has_null(items));
        }
    }
}

/// Unfolds `parse_collection` on a non-empty record whose length prefix,
/// header byte and element type metadata are already accounted for.
proof fn lemma_parse_collection_body(s: Seq<u8>, et: ElemType, lenn: nat, k1: nat, k2: nat)
    requires
        parse_varu32(s) == Some((lenn, k1)),
        0 < lenn < 0x1_0000_0000,
        s.skip(k1 as int).len() > 0,
        if header_declared(s.skip(k1 as int)[0]) {
            k2 == 0
        } else {
            parse_varu32(s.skip(k1 as int).skip(1)) == Some((et.type_id as nat, k2))
        },
    ensures
        parse_collection(s, et) == (match parse_elems(
            s.skip(k1 as int).skip(1).skip(k2 as int),
            et,
            header_same_type(s.skip(k1 as int)[0]) && !header_has_null(s.skip(k1 as int)[0]),
            lenn,
        ) {
            None => None::<(Seq<ElemModel>, nat)>,
            Some((ms, k3)) => Some((ms, (k1 + 1 + k2 + k3) as nat)),
        }),
{
}

/// How a non-empty record and the bytes after it split into the length
/// prefix, the header byte, the type metadata and the elements.
#[verifier::spinoff_prover]
proof fn lemma_enc_shape(items: Seq<ElemModel>, et: ElemType, is_field: bool, rest: Seq<u8>)
    requires
        items.len() > 0,
    ensures
        ({
            let h = collection_header(items, et, is_field);
            let ti = type_info_bytes(is_field, et.type_id);
            let eb = elems_bytes(items, et, spec_skip_ref_flag(items, et));
            let lb = varu32_bytes(items.len());
            let s = encode_collection(items, et, is_field) + rest;
            &&& s == lb + (seq![h] + ti + eb + rest)
            &&& s.skip(lb.len() as int) == seq![h] + ti + eb + rest
            &&& (seq![h] + ti + eb + rest)[0] == h
            &&& (seq![h] + ti + eb + rest).skip(1) == ti + (eb + rest)
            &&& (ti + (eb + rest)).skip(ti.len() as int) == eb + rest
            &&& encode_collection(items, et, is_field).len() == lb.len() + 1 + ti.len()
                + eb.len()
        }),
{
    let h = collection_header(items, et, is_field);
    let ti = type_info_bytes(is_field, et.type_id);
    let eb = elems_bytes(items, et, spec_skip_ref_flag(items, et));
    let lb = varu32_bytes(items.len());
    let s = encode_collection(items, et, is_field) + rest;
    assert(s =~= lb + (seq![h] + ti + eb + rest));
    assert(s.skip(lb.len() as int) =~= seq![h] + ti + eb + rest);
    assert((seq![h] + ti + eb + rest).skip(1) =~= ti + (eb + rest));
    assert((ti + (eb + rest)).skip(ti.len() as int) =~= eb + rest);
}

/// The non-empty half of the round trip: each parsing stage of the reader
/// meets the bytes the writer laid down.
#[verifier::rlimit(100)]
#[verifier::spinoff_prover]
proof fn lemma_nonempty_round_trip(
    items: Seq<ElemModel>,
    et: ElemType,
    is_field: bool,
    rest: Seq<u8>,
)
    requires
        wf_items(items, et),
        items.len() > 0,
    ensures
        parse_collection(encode_collection(items, et, is_field) + rest, et) == Some(
            (items, encode_collection(items, et, is_field).len()),
        ),
{
    let enc = encode_collection(items, et, is_field);
    let s = enc + rest;
    let h = collection_header(items, et, is_field);
    let ti = type_info_bytes(is_field, et.type_id);
    let skip_ref = spec_skip_ref_flag(items, et);
    let eb = elems_bytes(items, et, skip_ref);
    let lb = varu32_bytes(items.len());
    lemma_enc_shape(items, et, is_field, rest);
    crate::cursor::lemma_varu32_round_trip(items.len(), seq![h] + ti + eb + rest);
    assert(parse_varu32(s) == Some((items.len(), lb.len())));
    lemma_header_bits(et.is_option && spec_has_null(items), is_field, !et.is_polymorphic);
    if !is_field {
        crate::cursor::lemma_varu32_round_trip(et.type_id as nat, eb + rest);
        assert(parse_varu32(s.skip(lb.len() as int).skip(1)) == Some(
            (et.type_id as nat, ti.len()),
        ));
    }
    assert((header_same_type(h) && !header_has_null(h)) == skip_ref);
    assert(parse_elems(eb + rest, et, skip_ref, items.len()) == Some((items, eb.len()))) by {
        lemma_wf_items_ok(items, et);
        crate::value::lemma_elems_round_trip(items, et, skip_ref, rest);
    }
    lemma_parse_collection_body(s, et, items.len(), lb.len(), ti.len());
}

/// Round-trip: a collection reads back exactly as written, element for
/// element and in index order, whatever bytes follow the record.
pub proof fn lemma_collection_round_trip(
    items: Seq<ElemModel>,
    et: ElemType,
    is_field: bool,
    rest: Seq<u8>,
)
    requires
        wf_items(items, et),
    ensures
        parse_collection(encode_collection(items, et, is_field) + rest, et) == Some(
            (items, encode_collection(items, et, is_field).len()),
        ),
{
    if items.len() == 0 {
        let s = encode_collection(items, et, is_field) + rest;
        crate::cursor::lemma_varu32_round_trip(0, rest);
        assert(s =~= varu32_bytes(0) + rest);
        assert(items =~= Seq::<ElemModel>::empty());
    } else {
        lemma_nonempty_round_trip(items, et, is_field, rest);
    }
}

/// Empty-collection shortcut: an empty collection is exactly one zero
/// varint byte, with no header byte, and decoding it consumes exactly that
/// byte, whatever follows.
pub proof fn lemma_empty_collection_shortcut(et: ElemType, is_field: bool, rest: Seq<u8>)
    ensures
        encode_collection(Seq::empty(), et, is_field) == seq![0u8],
        parse_collection(seq![0u8] + rest, et) == Some((Seq::<ElemModel>::empty(), 1 as nat)),
{
    assert(varu32_bytes(0) =~= seq![0u8]);
    let s = seq![0u8] + rest;
    assert(s[0] == 0u8);
}

/// Header bit correctness: a collection with an absent element sets
/// `HAS_NULL`, a homogeneous element type sets `IS_SAME_TYPE`, a
/// declared-field encode sets `DECL_ELEMENT_TYPE` and omits the type
/// metadata that a non-field encode always includes.
pub proof fn lemma_header_bit_correctness(items: Seq<ElemModel>, et: ElemType, is_field: bool)
    requires
        wf_items(items, et),
    ensures
        header_has_null(collection_header(items, et, is_field)) == spec_has_null(items),
        header_declared(collection_header(items, et, is_field)) == is_field,
        header_same_type(collection_header(items, et, is_field)) == !et.is_polymorphic,
        type_info_bytes(true, et.type_id) == Seq::<u8>::empty(),
        type_info_bytes(false, et.type_id) == varu32_bytes(et.type_id as nat),
{
    lemma_header_bits(et.is_option && spec_has_null(items), is_field, !et.is_polymorphic);
    if spec_has_null(items) {
        let i = choose|i: int| 0 <= i < items.len() && items[i] is Null;
        assert(et.is_option);
    }
}

/// Marker omission saves exactly one byte per element: for elements that
/// are neither polymorphic nor reference-tracked nor absent, the
/// envelope-lite encoding with the marker omitted is shorter than the one
/// with markers by exactly the element count, so the two encodings of the
/// same logical data differ whenever the collection is not empty.
pub proof fn lemma_envelope_lite_savings(items: Seq<ElemModel>, et: ElemType)
    requires
        !et.is_polymorphic,
        !et.is_shared_ref,
        forall|i: int| 0 <= i < items.len() ==> !((#[trigger] items[i]) is Null),
    ensures
        elems_bytes(items, et, false).len() == elems_bytes(items, et, true).len() + items.len(),
    decreases items.len(),
{
    if items.len() > 0 {
        assert(!(items[0] is Null));
        lemma_envelope_lite_savings(items.skip(1), et);
    }
}

/// `skip_ref_flag` determinism: for a collection of non-polymorphic,
/// non-shared elements with no element absent, the writer decides to omit
/// the per-element marker, and the reader recomputes the same decision from
/// the header byte alone.
pub proof fn lemma_skip_ref_flag_determinism(items: Seq<ElemModel>, et: ElemType, is_field: bool)
    requires
        wf_items(items, et),
        !et.is_polymorphic,
        !et.is_shared_ref,
        !spec_has_null(items),
    ensures
        spec_skip_ref_flag(items, et),
        header_same_type(collection_header(items, et, is_field)) && !header_has_null(
            collection_header(items, et, is_field),
        ),
{
    lemma_header_bits(et.is_option && spec_has_null(items), is_field, !et.is_polymorphic);
}

/// Writes the collection's own type identifier, unless the collection is a
/// statically declared field, whose type both sides already know.
pub fn write_collection_type_info(context: &mut Writer, is_field: bool, collection_type_id: u32)
    ensures
        final(context).buf@ == old(context).buf@ + type_info_bytes(is_field, collection_type_id),
{
    if is_field {
        assert(old(context).buf@ + type_info_bytes(is_field, collection_type_id) =~= old(
            context,
        ).buf@);
        return ;
    }
    context.write_varuint32(collection_type_id);
}

/// Reads and validates the collection's own type identifier, unless the
/// collection is a statically declared field. A primitive-array identifier
/// on either side is rejected as a cross-family confusion: packed
/// primitive-array records and generic collection records are not
/// bit-compatible and are never coerced.
pub fn read_collection_type_info(
    context: &mut Reader,
    is_field: bool,
    collection_type_id: u32,
) -> (r: Result<(), Error>)
    requires
        old(context).wf(),
    ensures
        final(context).wf(),
        final(context).buf == old(context).buf,
        is_field ==> r is Ok && final(context).pos == old(context).pos,
        !is_field ==> match parse_varu32(old(context).remaining()) {
            None => r == Err::<(), Error>(Error::Truncated),
            Some((id, k)) => if id >= 0x1_0000_0000 {
                r == Err::<(), Error>(Error::BadVarint)
            } else if is_primitive_array_type_id(id as u32) || is_primitive_array_type_id(
                collection_type_id,
            ) {
                r == Err::<(), Error>(Error::CrossFamily)
            } else if id == collection_type_id as nat {
                r is Ok && final(context).pos == old(context).pos + k
            } else {
                r == Err::<(), Error>(Error::TypeMismatch)
            },
        },
{
    if is_field {
        return Ok(());
    }
    let remote_collection_type_id = match context.read_varuint32() {
        Ok(id) => id,
        Err(e) => {
            return Err(e);
        },
    };
    if is_primitive_array_id(remote_collection_type_id) || is_primitive_array_id(
        collection_type_id,
    ) {
        return Err(Error::CrossFamily);
    }
    if remote_collection_type_id != collection_type_id {
        return Err(Error::TypeMismatch);
    }
    Ok(())
}

/// Writes the element type's metadata: nothing when the element type is
/// statically declared, its identifier otherwise.
pub fn write_elem_type_info(context: &mut Writer, is_field: bool, et: &ElemType)
    ensures
        final(context).buf@ == old(context).buf@ + type_info_bytes(is_field, et.type_id),
{
    if is_field {
        assert(old(context).buf@ + type_info_bytes(is_field, et.type_id) =~= old(context).buf@);
        return ;
    }
    context.write_varuint32(et.type_id);
}

/// Reads the element type's metadata written by `write_elem_type_info`,
/// validating the identifier against the expected element type.
pub fn read_elem_type_info(context: &mut Reader, declared: bool, et: &ElemType) -> (r: Result<
    (),
    Error,
>)
    requires
        old(context).wf(),
    ensures
        final(context).wf(),
        final(context).buf == old(context).buf,
        declared ==> r is Ok && final(context).pos == old(context).pos,
        !declared ==> match parse_varu32(old(context).remaining()) {
            None => r is Err,
            Some((id, k)) => if id == et.type_id as nat {
                r is Ok && final(context).pos == old(context).pos + k
            } else {
                r is Err
            },
        },
{
    if declared {
        return Ok(());
    }
    let remote = match context.read_varuint32() {
        Ok(id) => id,
        Err(e) => {
            return Err(e);
        },
    };
    if remote != et.type_id {
        return Err(Error::TypeMismatch);
    }
    Ok(())
}

/// Writes one collection: the length, and, when it is not empty, the
/// header byte, the element type metadata, and every element in index
/// order through the envelope its header dictates.
pub fn write_collection(items: &Vec<Value>, context: &mut Writer, is_field: bool, et: &ElemType)
    requires
        wf_items(models(items@), *et),
    ensures
        final(context).buf@ == old(context).buf@ + encode_collection(
            models(items@),
            *et,
            is_field,
        ),
{
    let ghost ms = models(items@);
    let len = items.len();
    context.write_varuint32(len as u32);
    if len == 0 {
        assert(context.buf@ =~= old(context).buf@ + encode_collection(ms, *et, is_field));
        return ;
    }
    let mut has_null = false;
    if et.is_option {
        let mut i: usize = 0;
        while i < items.len()
            invariant
                i <= items.len(),
                ms == models(items@),
                has_null == exists|j: int| 0 <= j < i && ms[j] is Null,
            decreases items.len() - i,
        {
            if matches!(&items[i], Value::Null) {
                has_null = true;
                assert(ms[i as int] is Null);
            }
            i = i + 1;
        }
        assert(has_null == spec_has_null(ms));
    }
    let is_same_type = !et.is_polymorphic;
    let mut header: u8 = 0;
    if has_null {
        header = header + HAS_NULL;
    }
    if is_field {
        header = header + DECL_ELEMENT_TYPE;
    }
    if is_same_type {
        header = header + IS_SAME_TYPE;
    }
    assert(header == collection_header(ms, *et, is_field));
    context.write_u8(header);
    write_elem_type_info(context, is_field, et);
    let skip_ref_flag = is_same_type && !has_null;
    assert(skip_ref_flag == spec_skip_ref_flag(ms, *et));
    let ghost base = context.buf@;
    let mut i: usize = 0;
    while i < items.len()
        invariant
            i <= items.len(),
            ms == models(items@),
            wf_items(ms, *et),
            skip_ref_flag == spec_skip_ref_flag(ms, *et),
            context.buf@ == base + elems_bytes(ms.take(i as int), *et, skip_ref_flag),
        decreases items.len() - i,
    {
        proof {
            assert(ms[i as int] == items@[i as int]@);
            if skip_ref_flag && !et.is_polymorphic && !et.is_shared_ref {
                if ms[i as int] is Null {
                    assert(et.is_option);
                    assert(spec_has_null(ms));
                    assert(false);
                }
            }
        }
        context.write_element(&items[i], et, skip_ref_flag);
        proof {
            crate::value::lemma_elems_bytes_push(
                ms.take(i as int),
                ms[i as int],
                *et,
                skip_ref_flag,
            );
            assert(ms.take(i + 1 as int) =~= ms.take(i as int).push(ms[i as int]));
        }
        i = i + 1;
    }
    assert(ms.take(items@.len() as int) =~= ms);
    assert(context.buf@ =~= old(context).buf@ + encode_collection(ms, *et, is_field));
}
/// The element loop's progress relation: what has been collected and
/// consumed so far, together with what element parsing says of the bytes
/// still ahead, accounts for the whole run.
spec fn elems_loop_ok(
    s0: Seq<u8>,
    cur: Seq<u8>,
    acc: Seq<ElemModel>,
    consumed: nat,
    et: ElemType,
    skip_ref: bool,
    n_total: nat,
    n_left: nat,
) -> bool {
    match parse_elems(cur, et, skip_ref, n_left) {
        Some((ms2, kx)) => parse_elems(s0, et, skip_ref, n_total) == Some(
            (acc + ms2, (consumed + kx) as nat),
        ),
        None => parse_elems(s0, et, skip_ref, n_total) is None,
    }
}

/// One successfully parsed element carries the progress relation forward.
proof fn lemma_elems_loop_step(
    s0: Seq<u8>,
    cur: Seq<u8>,
    acc: Seq<ElemModel>,
    consumed: nat,
    et: ElemType,
    skip_ref: bool,
    n_total: nat,
    n_left: nat,
    m: ElemModel,
    kel: nat,
)
    requires
        n_left > 0,
        parse_elem(cur, et, skip_ref) == Some((m, kel)),
        elems_loop_ok(s0, cur, acc, consumed, et, skip_ref, n_total, n_left),
    ensures
        elems_loop_ok(
            s0,
            cur.skip(kel as int),
            acc.push(m),
            (consumed + kel) as nat,
            et,
            skip_ref,
            n_total,
            (n_left - 1) as nat,
        ),
{
    match parse_elems(cur.skip(kel as int), et, skip_ref, (n_left - 1) as nat) {
        Some((ms2, kx)) => {
            assert(parse_elems(cur, et, skip_ref, n_left) == Some(
                (seq![m] + ms2, (kel + kx) as nat),
            ));
            assert(acc + (seq![m] + ms2) =~= acc.push(m) + ms2);
        },
        None => {
            assert(parse_elems(cur, et, skip_ref, n_left) is None);
        },
    }
}

/// Reads `len` elements, collecting them in index order; any element
/// failure aborts the whole run.
#[verifier::rlimit(100)]
fn read_elements(context: &mut Reader, et: &ElemType, skip_ref_flag: bool, len: u32) -> (r:
    Result<Vec<Value>, Error>)
    requires
        old(context).wf(),
    ensures
        final(context).wf(),
        final(context).buf == old(context).buf,
        match r {
            Ok(c) => parse_elems(old(context).remaining(), *et, skip_ref_flag, len as nat)
                matches Some((ms, k)) && ms == models(c@) && final(context).pos == old(
                context,
            ).pos + k,
            Err(_) => parse_elems(old(context).remaining(), *et, skip_ref_flag, len as nat)
                is None,
        },
{
    let ghost s0 = old(context).remaining();
    let ghost pos0 = context.pos;
    let mut c: Vec<Value> = Vec::new();
    let mut i: u32 = 0;
    while i < len
        invariant
            context.wf(),
            context.buf == old(context).buf,
            i <= len,
            models(c@).len() == i as nat,
            pos0 == old(context).pos,
            pos0 <= context.pos,
            s0 == old(context).remaining(),
            elems_loop_ok(
                s0,
                context.remaining(),
                models(c@),
                (context.pos - pos0) as nat,
                *et,
                skip_ref_flag,
                len as nat,
                (len - i) as nat,
            ),
        decreases len - i,
    {
        let ghost cur = context.remaining();
        match context.read_element(et, skip_ref_flag) {
            Err(e) => {
                return Err(e);
            },
            Ok(v) => {
                proof {
                    let (m, kel) = parse_elem(cur, *et, skip_ref_flag).unwrap();
                    lemma_elems_loop_step(
                        s0,
                        cur,
                        models(c@),
                        (context.pos - pos0 - kel) as nat,
                        *et,
                        skip_ref_flag,
                        len as nat,
                        (len - i) as nat,
                        m,
                        kel,
                    );
                    assert(context.remaining() =~= cur.skip(kel as int));
                    assert(models(c@.push(v)) =~= models(c@).push(v@));
                }
                c.push(v);
                i = i + 1;
            },
        }
    }
    proof {
        assert(models(c@) + Seq::<ElemModel>::empty() =~= models(c@));
    }
    Ok(c)
}

/// Reads one collection into a freshly built vector: the allocating decode
/// path. Succeeds exactly on the streams that `parse_collection` accepts;
/// any element failure aborts the whole read, and a partial collection is
/// never returned. The declared length is never used to allocate ahead of
/// the data, so a hostile or corrupt length fails on the first missing byte
/// instead of requesting memory.
#[verifier::rlimit(100)]
pub fn read_collection(context: &mut Reader, et: &ElemType) -> (r: Result<Vec<Value>, Error>)
    requires
        old(context).wf(),
    ensures
        final(context).wf(),
        final(context).buf == old(context).buf,
        match r {
            Ok(c) => parse_collection(old(context).remaining(), *et) matches Some((ms, k)) && ms
                == models(c@) && final(context).pos == old(context).pos + k,
            Err(_) => parse_collection(old(context).remaining(), *et) is None,
        },
{
    let ghost s = old(context).remaining();
    let len = match context.read_varuint32() {
        Ok(v) => v,
        Err(e) => {
            return Err(e);
        },
    };
    let ghost (lenn, k1) = parse_varu32(s).unwrap();
    if len == 0 {
        let c: Vec<Value> = Vec::new();
        assert(models(c@) =~= Seq::<ElemModel>::empty());
        return Ok(c);
    }
    let ghost s1 = s.skip(k1 as int);
    proof {
        assert(context.remaining() =~= s1);
    }
    let header = match context.read_u8() {
        Ok(b) => b,
        Err(e) => {
            return Err(e);
        },
    };
    let declared = (header & DECL_ELEMENT_TYPE) != 0;
    let has_null = (header & HAS_NULL) != 0;
    let is_same_type = (header & IS_SAME_TYPE) != 0;
    proof {
        assert((header & 4u8 != 0) == ((header / 4) % 2 == 1)) by (bit_vector);
        assert((header & 2u8 != 0) == ((header / 2) % 2 == 1)) by (bit_vector);
        assert((header & 8u8 != 0) == ((header / 8) % 2 == 1)) by (bit_vector);
    }
    let ghost s2 = s1.skip(1);
    proof {
        assert(context.remaining() =~= s2);
    }
    match read_elem_type_info(context, declared, et) {
        Ok(_) => {
        },
        Err(e) => {
            return Err(e);
        },
    }
    let ghost k2: nat = if declared {
        0
    } else {
        parse_varu32(s2).unwrap().1
    };
    let ghost s3 = s2.skip(k2 as int);
    proof {
        assert(context.remaining() =~= s3);
    }
    let skip_ref_flag = is_same_type && !has_null;
    proof {
        assert(s1[0] == header);
        assert(header_declared(header) == declared);
        assert(header_has_null(header) == has_null);
        assert(header_same_type(header) == is_same_type);
        lemma_parse_collection_body(s, *et, lenn, k1, k2);
    }
    match read_elements(context, et, skip_ref_flag, len) {
        Ok(c) => Ok(c),
        Err(e) => Err(e),
    }
}

/// Collections that can be logically emptied while keeping their allocated
/// backing storage, the first half of what the in-place decode path needs.
pub trait Clear {
    /// The container holds nothing.
    spec fn cleared(&self) -> bool;

    /// Removes all logical contents; allocated capacity is retained where
    /// the container type has that notion.
    fn clear(&mut self)
        ensures
            final(self).cleared(),
    ;
}

impl<T> Clear for Vec<T> {
    open spec fn cleared(&self) -> bool {
        self@.len() == 0
    }

    fn clear(&mut self) {
        self.clear();
    }
}

impl<T> Clear for HashSet<T> {
    open spec fn cleared(&self) -> bool {
        self@ == Set::<T>::empty()
    }

    fn clear(&mut self) {
        self.clear();
    }
}

impl<K, V> Clear for HashMap<K, V> {
    open spec fn cleared(&self) -> bool {
        self@ == Map::<K, V>::empty()
    }

    fn clear(&mut self) {
        self.clear();
    }
}

impl<K, V> Clear for BTreeMap<K, V> {
    open spec fn cleared(&self) -> bool {
        self@ == Map::<K, V>::empty()
    }

    fn clear(&mut self) {
        self.clear();
    }
}

/// Collections that take decoded elements by bulk additive insertion, the
/// second half of what the in-place decode path needs.
pub trait ExtendValues: Sized {
    /// `post` is `pre` with the models of the added elements appended.
    spec fn extended(pre: Self, post: Self, elems: Seq<ElemModel>) -> bool;

    /// Adds every element of `elems`, in index order.
    fn extend_values(&mut self, elems: Vec<Value>)
        ensures
            Self::extended(*old(self), *final(self), models(elems@)),
    ;
}

impl ExtendValues for Vec<Value> {
    open spec fn extended(pre: Self, post: Self, elems: Seq<ElemModel>) -> bool {
        models(post@) == models(pre@) + elems
    }

    fn extend_values(&mut self, elems: Vec<Value>) {
        let ghost pre = *self;
        let ghost given = elems@;
        let mut elems = elems;
        self.append(&mut elems);
        proof {
            assert(models(self@) =~= models(pre@) + models(given));
        }
    }
}

/// A cleared vector refilled by the in-place decode path holds exactly the
/// decoded elements: the reused target equals the decoded payload.
pub proof fn lemma_vec_sink_exact(mid: Vec<Value>, post: Vec<Value>, elems: Seq<ElemModel>)
    requires
        mid.cleared(),
        <Vec<Value> as ExtendValues>::extended(mid, post, elems),
    ensures
        models(post@) == elems,
{
    assert(models(mid@) =~= Seq::<ElemModel>::empty());
    assert(Seq::<ElemModel>::empty() + elems =~= elems);
}

/// Reads one collection directly into an existing container: the in-place
/// decode path. The target is cleared first, capacity retained; decoded
/// elements are accumulated into a temporary buffer and merged in only
/// after every element has decoded, so a mid-sequence failure leaves the
/// target cleared, never holding stale elements mixed with new ones.
pub fn read_collection_into<C: Clear + ExtendValues>(
    context: &mut Reader,
    et: &ElemType,
    output: &mut C,
) -> (r: Result<(), Error>)
    requires
        old(context).wf(),
    ensures
        final(context).wf(),
        final(context).buf == old(context).buf,
        match r {
            Ok(_) => parse_collection(old(context).remaining(), *et) matches Some((ms, k))
                && final(context).pos == old(context).pos + k && (exists|mid: C|
                mid.cleared() && #[trigger] C::extended(mid, *final(output), ms)),
            Err(_) => parse_collection(old(context).remaining(), *et) is None && final(output).cleared(),
        },
{
    // Clear the existing collection, before any data is consulted, but
    // retain its capacity.
    output.clear();
    let ghost mid_state = *output;
    let elems = match read_collection(context, et) {
        Ok(c) => c,
        Err(e) => {
            return Err(e);
        },
    };
    let ghost ms = models(elems@);
    output.extend_values(elems);
    proof {
        assert(mid_state.cleared() && C::extended(mid_state, *output, ms));
    }
    Ok(())
}

} // verus!
