//! A contact: a card bound to the path of the file that holds it. New
//! contacts get a freshly generated identifier-named path and a minimal card;
//! writing them to disk, and reading card files, is the surrounding program's
//! business — this module only builds and binds the values.

use vstd::prelude::*;

use crate::bytes::{clone_bytes, DOT, SLASH};
use crate::item::{
    email_name, fn_name, spec_email_name, spec_fn_name, spec_uid_name, spec_vcard,
    spec_version_name, spec_version_value, uid_name, version_name, version_value, Item,
    PropertyValue, SpecItem, SpecProp,
};
use crate::parse::{parse_item, spec_parse, ParseError};

verus! {

/// Mathematical view of a contact.
#[verifier::ext_equal]
pub ghost struct SpecContact {
    pub item: SpecItem,
    pub path: Seq<u8>,
}

/// A card bound to a file path. The binding path never changes after
/// construction.
pub struct Contact {
    pub item: Item,
    pub path: Vec<u8>,
}

impl View for Contact {
    type V = SpecContact;

    open spec fn view(&self) -> SpecContact {
        SpecContact { item: self.item@, path: self.path@ }
    }
}

impl Contact {
    /// Bind already-read card text to its path. The text is parsed as a
    /// card; a malformed card refuses the whole contact.
    pub fn from_text(path: Vec<u8>, text: &Vec<u8>) -> (r: Result<Contact, ParseError>)
        ensures
            r matches Ok(c) ==> spec_parse(text@) == Ok::<SpecItem, ParseError>(c@.item)
                && c@.path == path@,
            r matches Err(e) ==> spec_parse(text@) == Err::<SpecItem, ParseError>(e),
    {
        match parse_item(text) {
            Ok(item) => Ok(Contact { item, path }),
            Err(e) => Err(e),
        }
    }

    /// Synthesize a new contact: a fresh identifier names the file inside
    /// `dir`, and the card holds `VERSION`, the optional `FN` and `EMAIL`,
    /// and the identifier as `UID`.
    pub fn generate(fullname: Option<&Vec<u8>>, email: Option<&Vec<u8>>, dir: &Vec<u8>) -> (c:
        Contact)
        ensures
            exists|u: Seq<u8>|
                {
                    &&& u.len() == 36
                    &&& (forall|i: int| 0 <= i < u.len() ==> is_uid_byte(#[trigger] u[i]))
                    &&& c@.path == spec_contact_path(dir@, u)
                    &&& c@.item == spec_generate_component(
                        u,
                        match fullname {
                            Some(f) => Some(f@),
                            None => None,
                        },
                        match email {
                            Some(e) => Some(e@),
                            None => None,
                        },
                    )
                },
    {
        let uid = fresh_uid();
        let mut path = clone_bytes(dir);
        path.push(SLASH);
        let uid2 = clone_bytes(&uid);
        let mut tail = uid2;
        path.append(&mut tail);
        path.push(DOT);
        path.push(118);
        path.push(99);
        path.push(102);
        let item = generate_component(uid, fullname, email);
        let c = Contact { item, path };
        proof {
            assert(c@.path =~= spec_contact_path(dir@, uid@));
        }
        c
    }
}

/// A byte the generated identifier may hold: a digit, a lower-case hex
/// letter, or a hyphen.
pub open spec fn is_uid_byte(b: u8) -> bool {
    (48 <= b <= 57) || (97 <= b <= 102) || b == 45
}

/// The file path of a generated contact: `<dir>/<uid>.vcf`.
pub open spec fn spec_contact_path(dir: Seq<u8>, uid: Seq<u8>) -> Seq<u8> {
    dir + seq![SLASH] + uid + seq![DOT, 118u8, 99u8, 102u8]
}

/// Relies on `uuid::Uuid::new_v4` and the `Display` of its hyphenated form:
/// a version-4 identifier printed as 36 characters — lower-case hexadecimal
/// digits in five hyphen-separated groups. Randomness means no two calls need
/// agree; only shape is promised.
#[verifier::external_body]
fn fresh_uid() -> (r: Vec<u8>)
    ensures
        r@.len() == 36,
        forall|i: int| 0 <= i < r@.len() ==> is_uid_byte(#[trigger] r@[i]),
{
    uuid::Uuid::new_v4().hyphenated().to_string().into_bytes()
}

/// The card of a newly generated contact.
pub open spec fn spec_generate_component(
    uid: Seq<u8>,
    fullname: Option<Seq<u8>>,
    email: Option<Seq<u8>>,
) -> SpecItem {
    let base = seq![SpecProp { name: spec_version_name(), params: Seq::empty(), value: spec_version_value() }];
    let with_fn = match fullname {
        Some(f) => base + seq![SpecProp { name: spec_fn_name(), params: Seq::empty(), value: f }],
        None => base,
    };
    let with_email = match email {
        Some(e) => with_fn
            + seq![SpecProp { name: spec_email_name(), params: Seq::empty(), value: e }],
        None => with_fn,
    };
    SpecItem {
        name: spec_vcard(),
        props: with_email
            + seq![SpecProp { name: spec_uid_name(), params: Seq::empty(), value: uid }],
    }
}

/// Build the minimal card for a new contact.
pub fn generate_component(uid: Vec<u8>, fullname: Option<&Vec<u8>>, email: Option<&Vec<u8>>) -> (r:
    Item)
    ensures
        r@ == spec_generate_component(
            uid@,
            match fullname {
                Some(f) => Some(f@),
                None => None,
            },
            match email {
                Some(e) => Some(e@),
                None => None,
            },
        ),
{
    let mut comp = Item::new();
    comp.push(PropertyValue::new(version_name(), Vec::new(), version_value()));
    match fullname {
        Some(f) => comp.push(PropertyValue::new(fn_name(), Vec::new(), clone_bytes(f))),
        None => (),
    }
    match email {
        Some(e) => comp.push(PropertyValue::new(email_name(), Vec::new(), clone_bytes(e))),
        None => (),
    }
    comp.push(PropertyValue::new(uid_name(), Vec::new(), uid));
    proof {
        assert(comp@ =~~= spec_generate_component(
            uid@,
            match fullname {
                Some(f) => Some(f@),
                None => None,
            },
            match email {
                Some(e) => Some(e@),
                None => None,
            },
        ));
    }
    comp
}

} // verus!
