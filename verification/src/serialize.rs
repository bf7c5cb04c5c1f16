//! The card serializer: `Item` back to raw text, the inverse of the parser.
//! Serialization is total: every item, however built, serializes. Each
//! property becomes one `NAME[;PARAMS]:VALUE` line, `\n`-terminated, values
//! escaped, properties in the item's own order, between `BEGIN` and `END`
//! marker lines.

use vstd::prelude::*;

use crate::bytes::{clone_bytes, COLON, LF, SEMI};
use crate::escape::{escape_bytes, spec_escape};
use crate::item::{Item, PropertyValue, SpecItem, SpecProp};
use crate::parse::{begin_marker, end_marker, spec_begin, spec_end};

verus! {

/// One serialized property line, without its terminator.
pub open spec fn spec_prop_line(p: SpecProp) -> Seq<u8> {
    p.name + (if p.params.len() == 0 {
        Seq::<u8>::empty()
    } else {
        seq![SEMI] + p.params
    }) + seq![COLON] + spec_escape(p.value)
}

/// The serialized property lines from `i` on, each `\n`-terminated.
pub open spec fn spec_serialize_props(props: Seq<SpecProp>, i: int) -> Seq<u8>
    decreases props.len() - i when 0 <= i <= props.len()
{
    if i >= props.len() {
        Seq::empty()
    } else {
        spec_prop_line(props[i]) + seq![LF] + spec_serialize_props(props, i + 1)
    }
}

/// The `BEGIN:<name>` line, shared in shape with `END:<name>`.
pub open spec fn spec_marker_line(marker: Seq<u8>, name: Seq<u8>) -> Seq<u8> {
    marker + seq![COLON] + name
}

/// What serializing a card means.
pub open spec fn spec_serialize(it: SpecItem) -> Seq<u8> {
    spec_marker_line(spec_begin(), it.name) + seq![LF] + spec_serialize_props(it.props, 0)
        + spec_marker_line(spec_end(), it.name) + seq![LF]
}

/// Append a copy of `src` to `dst`.
pub fn append_bytes(dst: &mut Vec<u8>, src: &Vec<u8>)
    ensures
        final(dst)@ == old(dst)@ + src@,
{
    let mut t = clone_bytes(src);
    dst.append(&mut t);
}

/// One serialized property line, without its terminator.
pub fn prop_line(p: &PropertyValue) -> (r: Vec<u8>)
    ensures
        r@ == spec_prop_line(p@),
{
    let mut r = clone_bytes(&p.name);
    if p.params.len() > 0 {
        r.push(SEMI);
        append_bytes(&mut r, &p.params);
    }
    r.push(COLON);
    let esc = escape_bytes(&p.value);
    append_bytes(&mut r, &esc);
    proof {
        assert(r@ =~= spec_prop_line(p@));
    }
    r
}

/// Serialize a card. Total: any item serializes.
pub fn serialize(item: &Item) -> (r: Vec<u8>)
    ensures
        r@ == spec_serialize(item@),
{
    let ghost whole = spec_serialize(item@);
    let mut r = begin_marker();
    r.push(COLON);
    append_bytes(&mut r, &item.name);
    r.push(LF);
    let ghost tail = spec_marker_line(spec_end(), item@.name) + seq![LF];
    proof {
        assert(whole =~= r@ + spec_serialize_props(item@.props, 0) + tail);
    }
    let mut i: usize = 0;
    while i < item.props.len()
        invariant
            0 <= i <= item.props.len(),
            whole == spec_serialize(item@),
            tail == spec_marker_line(spec_end(), item@.name) + seq![LF],
            whole == r@ + spec_serialize_props(item@.props, i as int) + tail,
        decreases item.props.len() - i,
    {
        proof {
            assert(item@.props[i as int] == item.props@[i as int]@);
        }
        let line = prop_line(&item.props[i]);
        append_bytes(&mut r, &line);
        r.push(LF);
        proof {
            assert(whole =~= r@ + spec_serialize_props(item@.props, i + 1) + tail);
        }
        i = i + 1;
    }
    let em = end_marker();
    append_bytes(&mut r, &em);
    r.push(COLON);
    append_bytes(&mut r, &item.name);
    r.push(LF);
    proof {
        assert(r@ =~= whole);
    }
    r
}

} // verus!
