//! The in-memory model of a card: an ordered list of named, parameterized,
//! valued properties under a component name.

use vstd::prelude::*;

use crate::bytes::clone_bytes;

verus! {

/// Mathematical view of one property.
#[verifier::ext_equal]
pub ghost struct SpecProp {
    pub name: Seq<u8>,
    pub params: Seq<u8>,
    pub value: Seq<u8>,
}

/// Mathematical view of a card.
#[verifier::ext_equal]
pub ghost struct SpecItem {
    pub name: Seq<u8>,
    pub props: Seq<SpecProp>,
}

/// One property of a card: a name such as `FN` or `EMAIL`, a raw parameter
/// string (empty when the line had none), and the unescaped value.
pub struct PropertyValue {
    pub name: Vec<u8>,
    pub params: Vec<u8>,
    pub value: Vec<u8>,
}

impl View for PropertyValue {
    type V = SpecProp;

    open spec fn view(&self) -> SpecProp {
        SpecProp { name: self.name@, params: self.params@, value: self.value@ }
    }
}

impl DeepView for PropertyValue {
    type V = SpecProp;

    open spec fn deep_view(&self) -> SpecProp {
        self@
    }
}

impl Clone for PropertyValue {
    fn clone(&self) -> (r: Self)
        ensures
            r@ == self@,
    {
        let r = PropertyValue {
            name: clone_bytes(&self.name),
            params: clone_bytes(&self.params),
            value: clone_bytes(&self.value),
        };
        r
    }
}

impl PropertyValue {
    pub fn new(name: Vec<u8>, params: Vec<u8>, value: Vec<u8>) -> (r: PropertyValue)
        ensures
            r@ == (SpecProp { name: name@, params: params@, value: value@ }),
    {
        PropertyValue { name, params, value }
    }

    pub fn get_raw_value(&self) -> (r: &Vec<u8>)
        ensures
            r@ == self@.value,
    {
        &self.value
    }

    pub fn get_raw_params(&self) -> (r: &Vec<u8>)
        ensures
            r@ == self@.params,
    {
        &self.params
    }
}

/// Index of the first property at or after `i` whose name is `name`, or the
/// length of `props` if there is none.
pub open spec fn first_named_from(props: Seq<SpecProp>, name: Seq<u8>, i: int) -> int
    decreases props.len() - i when 0 <= i <= props.len()
{
    if i >= props.len() {
        props.len() as int
    } else if props[i].name == name {
        i
    } else {
        first_named_from(props, name, i + 1)
    }
}

pub proof fn lemma_first_named_from(props: Seq<SpecProp>, name: Seq<u8>, i: int)
    requires
        0 <= i <= props.len(),
    ensures
        i <= first_named_from(props, name, i) <= props.len(),
        first_named_from(props, name, i) < props.len() ==> props[first_named_from(
            props,
            name,
            i,
        )].name == name,
        forall|j: int| i <= j < first_named_from(props, name, i) ==> props[j].name != name,
    decreases props.len() - i,
{
    if i < props.len() && props[i].name != name {
        lemma_first_named_from(props, name, i + 1);
    }
}

/// The subsequence of properties named `name`, from `i` on, in order.
pub open spec fn named_from(props: Seq<SpecProp>, name: Seq<u8>, i: int) -> Seq<SpecProp>
    decreases props.len() - i when 0 <= i <= props.len()
{
    if i >= props.len() {
        Seq::empty()
    } else if props[i].name == name {
        seq![props[i]] + named_from(props, name, i + 1)
    } else {
        named_from(props, name, i + 1)
    }
}

/// The subsequence of properties not named `name`, from `i` on, in order.
pub open spec fn not_named_from(props: Seq<SpecProp>, name: Seq<u8>, i: int) -> Seq<SpecProp>
    decreases props.len() - i when 0 <= i <= props.len()
{
    if i >= props.len() {
        Seq::empty()
    } else if props[i].name == name {
        not_named_from(props, name, i + 1)
    } else {
        seq![props[i]] + not_named_from(props, name, i + 1)
    }
}

/// A card: a component name (ordinarily `VCARD`) and its properties in
/// encounter order. Properties sharing a name keep their relative order; the
/// first `EMAIL` pushed stays the first one reported.
pub struct Item {
    pub name: Vec<u8>,
    pub props: Vec<PropertyValue>,
}

impl View for Item {
    type V = SpecItem;

    open spec fn view(&self) -> SpecItem {
        SpecItem { name: self.name@, props: self.props.deep_view() }
    }
}

pub open spec fn spec_vcard() -> Seq<u8> {
    seq![86u8, 67u8, 65u8, 82u8, 68u8]
}

/// The component name `VCARD`.
pub fn vcard_name() -> (r: Vec<u8>)
    ensures
        r@ == spec_vcard(),
{
    let mut v: Vec<u8> = Vec::new();
    v.push(86);
    v.push(67);
    v.push(65);
    v.push(82);
    v.push(68);
    proof {
        assert(v@ =~= spec_vcard());
    }
    v
}

pub open spec fn spec_fn_name() -> Seq<u8> {
    seq![70u8, 78u8]
}

/// The property name `FN`.
pub fn fn_name() -> (r: Vec<u8>)
    ensures
        r@ == spec_fn_name(),
{
    let mut v: Vec<u8> = Vec::new();
    v.push(70);
    v.push(78);
    proof {
        assert(v@ =~= spec_fn_name());
    }
    v
}

pub open spec fn spec_email_name() -> Seq<u8> {
    seq![69u8, 77u8, 65u8, 73u8, 76u8]
}

/// The property name `EMAIL`.
pub fn email_name() -> (r: Vec<u8>)
    ensures
        r@ == spec_email_name(),
{
    let mut v: Vec<u8> = Vec::new();
    v.push(69);
    v.push(77);
    v.push(65);
    v.push(73);
    v.push(76);
    proof {
        assert(v@ =~= spec_email_name());
    }
    v
}

pub open spec fn spec_uid_name() -> Seq<u8> {
    seq![85u8, 73u8, 68u8]
}

/// The property name `UID`.
pub fn uid_name() -> (r: Vec<u8>)
    ensures
        r@ == spec_uid_name(),
{
    let mut v: Vec<u8> = Vec::new();
    v.push(85);
    v.push(73);
    v.push(68);
    proof {
        assert(v@ =~= spec_uid_name());
    }
    v
}

pub open spec fn spec_version_name() -> Seq<u8> {
    seq![86u8, 69u8, 82u8, 83u8, 73u8, 79u8, 78u8]
}

/// The property name `VERSION`.
pub fn version_name() -> (r: Vec<u8>)
    ensures
        r@ == spec_version_name(),
{
    let mut v: Vec<u8> = Vec::new();
    v.push(86);
    v.push(69);
    v.push(82);
    v.push(83);
    v.push(73);
    v.push(79);
    v.push(78);
    proof {
        assert(v@ =~= spec_version_name());
    }
    v
}

pub open spec fn spec_version_value() -> Seq<u8> {
    seq![51u8, 46u8, 48u8]
}

/// The card format version written into generated cards, `3.0`.
pub fn version_value() -> (r: Vec<u8>)
    ensures
        r@ == spec_version_value(),
{
    let mut v: Vec<u8> = Vec::new();
    v.push(51);
    v.push(46);
    v.push(48);
    proof {
        assert(v@ =~= spec_version_value());
    }
    v
}

impl Item {
    /// An empty `VCARD` component.
    pub fn new() -> (r: Item)
        ensures
            r@.name == spec_vcard(),
            r@.props == Seq::<SpecProp>::empty(),
    {
        let r = Item { name: vcard_name(), props: Vec::new() };
        proof {
            assert(r@.props =~= Seq::<SpecProp>::empty());
        }
        r
    }

    /// An empty component under the given name.
    pub fn with_name(name: Vec<u8>) -> (r: Item)
        ensures
            r@.name == name@,
            r@.props == Seq::<SpecProp>::empty(),
    {
        let r = Item { name, props: Vec::new() };
        proof {
            assert(r@.props =~= Seq::<SpecProp>::empty());
        }
        r
    }

    /// Append a property; encounter order is preserved.
    pub fn push(&mut self, p: PropertyValue)
        ensures
            final(self)@.name == old(self)@.name,
            final(self)@.props == old(self)@.props.push(p@),
    {
        let ghost before = self.props.deep_view();
        let ghost pv = p@;
        self.props.push(p);
        proof {
            assert(self.props.deep_view() =~= before.push(pv));
        }
    }

    /// The value of the first property named `key`, if any.
    pub fn single_value(&self, key: &Vec<u8>) -> (r: Option<Vec<u8>>)
        ensures
            ({
                let k = first_named_from(self@.props, key@, 0);
                match r {
                    Some(v) => k < self@.props.len() && v@ == self@.props[k].value,
                    None => k == self@.props.len(),
                }
            }),
    {
        let mut i: usize = 0;
        while i < self.props.len()
            invariant
                0 <= i <= self.props.len(),
                first_named_from(self@.props, key@, 0) == first_named_from(
                    self@.props,
                    key@,
                    i as int,
                ),
                forall|j: int| 0 <= j < i ==> self@.props[j].name != key@,
            decreases self.props.len() - i,
        {
            if crate::bytes::bytes_eq(&self.props[i].name, key) {
                return Some(clone_bytes(&self.props[i].value));
            }
            i = i + 1;
        }
        None
    }

    /// All properties named `key`, in encounter order, as copies.
    pub fn all_values(&self, key: &Vec<u8>) -> (r: Vec<PropertyValue>)
        ensures
            r.deep_view() == named_from(self@.props, key@, 0),
    {
        let mut r: Vec<PropertyValue> = Vec::new();
        let mut i: usize = 0;
        while i < self.props.len()
            invariant
                0 <= i <= self.props.len(),
                named_from(self@.props, key@, 0) == r.deep_view() + named_from(
                    self@.props,
                    key@,
                    i as int,
                ),
            decreases self.props.len() - i,
        {
            if crate::bytes::bytes_eq(&self.props[i].name, key) {
                let ghost before = r.deep_view();
                r.push(self.props[i].clone());
                proof {
                    assert(r.deep_view() =~~= before + seq![self@.props[i as int]]);
                }
            }
            i = i + 1;
        }
        proof {
            assert(r.deep_view() =~~= r.deep_view() + named_from(
                self@.props,
                key@,
                self@.props.len() as int,
            ));
        }
        r
    }

    /// Remove and return all properties named `key`; the remaining properties
    /// keep their order. Callers may edit the returned list and push its
    /// entries back.
    pub fn all_values_mut(&mut self, key: &Vec<u8>) -> (r: Vec<PropertyValue>)
        ensures
            final(self)@.name == old(self)@.name,
            final(self)@.props == not_named_from(old(self)@.props, key@, 0),
            r.deep_view() == named_from(old(self)@.props, key@, 0),
    {
        let ghost orig = self@.props;
        let mut taken: Vec<PropertyValue> = Vec::new();
        let mut kept: Vec<PropertyValue> = Vec::new();
        let mut i: usize = 0;
        while i < self.props.len()
            invariant
                0 <= i <= self.props.len(),
                self@.props == orig,
                named_from(orig, key@, 0) == taken.deep_view() + named_from(
                    orig,
                    key@,
                    i as int,
                ),
                not_named_from(orig, key@, 0) == kept.deep_view() + not_named_from(
                    orig,
                    key@,
                    i as int,
                ),
            decreases self.props.len() - i,
        {
            let ghost taken_before = taken.deep_view();
            let ghost kept_before = kept.deep_view();
            if crate::bytes::bytes_eq(&self.props[i].name, key) {
                taken.push(self.props[i].clone());
                proof {
                    assert(taken.deep_view() =~~= taken_before + seq![orig[i as int]]);
                }
            } else {
                kept.push(self.props[i].clone());
                proof {
                    assert(kept.deep_view() =~~= kept_before + seq![orig[i as int]]);
                }
            }
            i = i + 1;
        }
        proof {
            assert(taken.deep_view() =~~= taken.deep_view() + named_from(
                orig,
                key@,
                orig.len() as int,
            ));
            assert(kept.deep_view() =~~= kept.deep_view() + not_named_from(
                orig,
                key@,
                orig.len() as int,
            ));
        }
        self.props = kept;
        taken
    }
}

} // verus!
