//! The index: one tab-separated line per `EMAIL` property of a contact
//! (`email \t name \t filepath`, newline-terminated), rebuilt wholesale from
//! card files, and read back from the output of an external line filter.

use vstd::prelude::*;

use crate::bytes::{
    bytes_eq, clone_bytes, last_before, lemma_split_from_len, rfind_byte, split_by, split_vec,
    DOT, GT, LF, LT, SLASH, SP, TAB,
};
use crate::contact::{Contact, SpecContact};
use crate::item::{
    first_named_from, fn_name, lemma_first_named_from, spec_email_name, spec_fn_name, SpecProp,
};
use crate::parse::{spec_parse, parse_item};

verus! {

/// Why indexing failed.
#[derive(Clone, Copy, PartialEq, Eq, Structural, Debug)]
pub enum IndexError {
    /// The card has no `FN` property: an address book entry needs a name.
    NoName,
    /// A rebuild finished and wrote an index, but some card files were
    /// skipped as unreadable or nameless.
    PartialIndexFailure,
}

/// The index line for one email: `email \t name \t path \n`.
pub open spec fn spec_index_line(email: Seq<u8>, name: Seq<u8>, path: Seq<u8>) -> Seq<u8> {
    email + seq![TAB] + name + seq![TAB] + path + seq![LF]
}

/// The index lines of the properties from `i` on: one line per `EMAIL`.
pub open spec fn spec_index_lines(
    props: Seq<SpecProp>,
    name: Seq<u8>,
    path: Seq<u8>,
    i: int,
) -> Seq<u8>
    decreases props.len() - i when 0 <= i <= props.len()
{
    if i >= props.len() {
        Seq::empty()
    } else {
        (if props[i].name == spec_email_name() {
            spec_index_line(props[i].value, name, path)
        } else {
            Seq::empty()
        }) + spec_index_lines(props, name, path, i + 1)
    }
}

/// What indexing one contact means: the first `FN` names it (later ones are
/// ignored); without any `FN` indexing fails; with a name, one line per
/// `EMAIL` in encounter order — possibly none.
pub open spec fn spec_index_entry(c: SpecContact) -> Result<Seq<u8>, IndexError> {
    let k = first_named_from(c.item.props, spec_fn_name(), 0);
    if k == c.item.props.len() {
        Err(IndexError::NoName)
    } else {
        Ok(spec_index_lines(c.item.props, c.item.props[k].value, c.path, 0))
    }
}

/// The index lines of one contact. Pure: the caller persists the result.
pub fn index_item_from_contact(contact: &Contact) -> (r: Result<Vec<u8>, IndexError>)
    ensures
        r matches Ok(v) ==> spec_index_entry(contact@) == Ok::<Seq<u8>, IndexError>(v@),
        r matches Err(e) ==> spec_index_entry(contact@) == Err::<Seq<u8>, IndexError>(e),
{
    let key = fn_name();
    let name = match contact.item.single_value(&key) {
        Some(n) => n,
        None => {
            return Err(IndexError::NoName);
        },
    };
    let ghost props = contact@.item.props;
    let ghost k = first_named_from(props, spec_fn_name(), 0);
    proof {
        lemma_first_named_from(props, spec_fn_name(), 0);
    }
    let mut r: Vec<u8> = Vec::new();
    let mut i: usize = 0;
    proof {
        assert(r@ + spec_index_lines(props, name@, contact@.path, 0) =~= spec_index_lines(
            props,
            name@,
            contact@.path,
            0,
        ));
    }
    while i < contact.item.props.len()
        invariant
            0 <= i <= contact.item.props.len(),
            props == contact@.item.props,
            spec_index_lines(props, name@, contact@.path, 0) == r@ + spec_index_lines(
                props,
                name@,
                contact@.path,
                i as int,
            ),
        decreases contact.item.props.len() - i,
    {
        let p = &contact.item.props[i];
        proof {
            assert(props[i as int] == contact.item.props@[i as int]@);
        }
        let ekey = crate::item::email_name();
        if bytes_eq(&p.name, &ekey) {
            let ghost before = r@;
            crate::serialize::append_bytes(&mut r, &p.value);
            r.push(TAB);
            crate::serialize::append_bytes(&mut r, &name);
            r.push(TAB);
            crate::serialize::append_bytes(&mut r, &contact.path);
            r.push(LF);
            proof {
                assert(r@ =~= before + spec_index_line(props[i as int].value, name@, contact@.path));
            }
        }
        i = i + 1;
    }
    proof {
        assert(r@ =~= spec_index_lines(props, name@, contact@.path, 0));
    }
    Ok(r)
}

/// One card file handed to a rebuild: its path and its raw content.
pub struct CardFile {
    pub path: Vec<u8>,
    pub content: Vec<u8>,
}

/// Mathematical view of a card file.
#[verifier::ext_equal]
pub ghost struct SpecCardFile {
    pub path: Seq<u8>,
    pub content: Seq<u8>,
}

impl View for CardFile {
    type V = SpecCardFile;

    open spec fn view(&self) -> SpecCardFile {
        SpecCardFile { path: self.path@, content: self.content@ }
    }
}

impl DeepView for CardFile {
    type V = SpecCardFile;

    open spec fn deep_view(&self) -> SpecCardFile {
        self@
    }
}

/// Does the path name a `.vcf` file? The base name after the last slash must
/// have a `vcf` extension after its last dot, and something before that dot,
/// as `Path::extension` reads names.
pub open spec fn spec_is_vcf_path(p: Seq<u8>) -> bool {
    let sl = last_before(p, SLASH, p.len() as int);
    let base = p.subrange(sl + 1, p.len() as int);
    let dt = last_before(base, DOT, base.len() as int);
    dt > 0 && base.subrange(dt + 1, base.len() as int) == seq![118u8, 99u8, 102u8]
}

/// Does the path name a `.vcf` file?
pub fn is_vcf_path(p: &Vec<u8>) -> (r: bool)
    ensures
        r == spec_is_vcf_path(p@),
{
    let sl_plus: usize = match rfind_byte(p, SLASH, p.len()) {
        Some(k) => k + 1,
        None => 0,
    };
    let base = crate::bytes::copy_range(p, sl_plus, p.len());
    proof {
        assert(base@ =~= p@.subrange(
            last_before(p@, SLASH, p@.len() as int) + 1,
            p@.len() as int,
        ));
    }
    let dt = match rfind_byte(&base, DOT, base.len()) {
        Some(k) => k,
        None => {
            return false;
        },
    };
    if dt == 0 {
        return false;
    }
    let ext = crate::bytes::copy_range(&base, dt + 1, base.len());
    let r = ext.len() == 3 && ext[0] == 118 && ext[1] == 99 && ext[2] == 102;
    proof {
        let sext = base@.subrange(dt + 1, base@.len() as int);
        if r {
            assert(sext =~= seq![118u8, 99u8, 102u8]);
        } else {
            assert(sext != seq![118u8, 99u8, 102u8]) by {
                if sext == seq![118u8, 99u8, 102u8] {
                    assert(ext@.len() == 3 && ext@[0] == 118 && ext@[1] == 99 && ext@[2] == 102);
                }
            }
        }
    }
    r
}

/// What one file contributes to a rebuilt index: nothing unless it is a
/// readable `.vcf` card with a name.
pub open spec fn spec_file_contrib(f: SpecCardFile) -> Seq<u8> {
    if !spec_is_vcf_path(f.path) {
        Seq::empty()
    } else {
        match spec_parse(f.content) {
            Err(_) => Seq::empty(),
            Ok(it) => match spec_index_entry(SpecContact { item: it, path: f.path }) {
                Err(_) => Seq::empty(),
                Ok(lines) => lines,
            },
        }
    }
}

/// Is one file counted as a rebuild error? Only `.vcf` files count; others
/// are silently skipped.
pub open spec fn spec_file_error(f: SpecCardFile) -> bool {
    spec_is_vcf_path(f.path) && match spec_parse(f.content) {
        Err(_) => true,
        Ok(it) => spec_index_entry(SpecContact { item: it, path: f.path }) is Err,
    }
}

pub open spec fn spec_build_index(files: Seq<SpecCardFile>, i: int) -> Seq<u8>
    decreases files.len() - i when 0 <= i <= files.len()
{
    if i >= files.len() {
        Seq::empty()
    } else {
        spec_file_contrib(files[i]) + spec_build_index(files, i + 1)
    }
}

pub open spec fn spec_build_errors(files: Seq<SpecCardFile>, i: int) -> bool
    decreases files.len() - i when 0 <= i <= files.len()
{
    if i >= files.len() {
        false
    } else {
        spec_file_error(files[i]) || spec_build_errors(files, i + 1)
    }
}

/// Rebuild the index content from the given card files, in their order. A
/// malformed or nameless card is skipped and reported through the flag, so
/// the index stays usable; the caller replaces the index file atomically and
/// surfaces `PartialIndexFailure` when the flag is set.
pub fn build_index(files: &Vec<CardFile>) -> (r: (Vec<u8>, bool))
    ensures
        r.0@ == spec_build_index(files.deep_view(), 0),
        r.1 == spec_build_errors(files.deep_view(), 0),
{
    let ghost fs = files.deep_view();
    let mut out: Vec<u8> = Vec::new();
    let mut errors = false;
    let mut i: usize = 0;
    proof {
        assert(out@ + spec_build_index(fs, 0) =~= spec_build_index(fs, 0));
    }
    while i < files.len()
        invariant
            0 <= i <= files.len(),
            fs == files.deep_view(),
            spec_build_index(fs, 0) == out@ + spec_build_index(fs, i as int),
            spec_build_errors(fs, 0) == (errors || spec_build_errors(fs, i as int)),
        decreases files.len() - i,
    {
        proof {
            assert(fs[i as int] == files@[i as int]@);
        }
        let f = &files[i];
        let ghost before = out@;
        if is_vcf_path(&f.path) {
            match parse_item(&f.content) {
                Ok(item) => {
                    let c = Contact { item, path: clone_bytes(&f.path) };
                    match index_item_from_contact(&c) {
                        Ok(lines) => {
                            crate::serialize::append_bytes(&mut out, &lines);
                            proof {
                                assert(out@ =~= before + spec_file_contrib(fs[i as int]));
                            }
                        },
                        Err(_) => {
                            errors = true;
                        },
                    }
                },
                Err(_) => {
                    errors = true;
                },
            }
        }
        proof {
            assert(out@ =~= before + spec_file_contrib(fs[i as int]));
            assert(spec_build_index(fs, 0) =~= out@ + spec_build_index(fs, i + 1));
        }
        i = i + 1;
    }
    (out, errors)
}

/// Mathematical view of one index entry.
#[verifier::ext_equal]
pub ghost struct SpecIndexItem {
    pub email: Seq<u8>,
    pub name: Seq<u8>,
    pub filepath: Option<Seq<u8>>,
}

/// One line of filter output, split on tabs: email, then name, then
/// filepath. Missing trailing fields are tolerated — an absent name is
/// empty, an absent filepath is `None`; a fourth field is ignored.
pub open spec fn item_of_line(l: Seq<u8>) -> SpecIndexItem {
    let parts = split_by(l, TAB);
    SpecIndexItem {
        email: parts[0],
        name: if parts.len() >= 2 {
            parts[1]
        } else {
            Seq::empty()
        },
        filepath: if parts.len() >= 3 {
            Some(parts[2])
        } else {
            None
        },
    }
}

/// One parsed index entry.
pub struct IndexItem {
    pub email: Vec<u8>,
    pub name: Vec<u8>,
    pub filepath: Option<Vec<u8>>,
}

impl View for IndexItem {
    type V = SpecIndexItem;

    open spec fn view(&self) -> SpecIndexItem {
        SpecIndexItem {
            email: self.email@,
            name: self.name@,
            filepath: match self.filepath {
                Some(p) => Some(p@),
                None => None,
            },
        }
    }
}

impl IndexItem {
    /// Parse one line of filter output.
    pub fn new(line: Vec<u8>) -> (r: IndexItem)
        ensures
            r@ == item_of_line(line@),
    {
        let parts = split_vec(&line, TAB);
        let ghost ps = split_by(line@, TAB);
        proof {
            lemma_split_from_len(line@, TAB, 0);
            assert(parts.deep_view() == ps);
            assert(ps[0] =~= parts@[0]@);
            if parts@.len() >= 2 {
                assert(ps[1] =~= parts@[1]@);
            }
            if parts@.len() >= 3 {
                assert(ps[2] =~= parts@[2]@);
            }
        }
        let email = clone_bytes(&parts[0]);
        let name = if parts.len() >= 2 {
            clone_bytes(&parts[1])
        } else {
            Vec::new()
        };
        let filepath = if parts.len() >= 3 {
            Some(clone_bytes(&parts[2]))
        } else {
            None
        };
        let r = IndexItem { email, name, filepath };
        proof {
            assert(r@ =~~= item_of_line(line@));
        }
        r
    }
}

/// The filter output's lines: the text split on newlines, without the empty
/// tail segment that a terminating newline leaves. One output line, one
/// entry.
pub open spec fn output_lines(output: Seq<u8>) -> Seq<Seq<u8>> {
    let ls = split_by(output, LF);
    if ls.last().len() == 0 {
        ls.drop_last()
    } else {
        ls
    }
}

fn output_lines_vec(output: &Vec<u8>) -> (r: Vec<Vec<u8>>)
    ensures
        r.deep_view() == output_lines(output@),
{
    let ghost ls = split_by(output@, LF);
    let mut lines = split_vec(output, LF);
    proof {
        lemma_split_from_len(output@, LF, 0);
        assert(ls[ls.len() - 1] =~= lines@[lines@.len() - 1]@);
    }
    if lines[lines.len() - 1].len() == 0 {
        let ghost before = lines.deep_view();
        lines.pop();
        proof {
            assert(lines.deep_view() =~~= before.drop_last());
        }
    }
    lines
}

/// The lines of one filter run, handed out from the last line backwards, as
/// the query engine has always done.
pub struct IndexIterator {
    pub linebuffer: Vec<Vec<u8>>,
}

impl View for IndexIterator {
    type V = Seq<Seq<u8>>;

    open spec fn view(&self) -> Seq<Seq<u8>> {
        self.linebuffer.deep_view()
    }
}

impl IndexIterator {
    /// Split filter output into its lines, one entry each.
    pub fn new(output: &Vec<u8>) -> (r: IndexIterator)
        ensures
            r@ == output_lines(output@),
    {
        IndexIterator { linebuffer: output_lines_vec(output) }
    }

    /// The next entry, in reverse line order; `None` once exhausted.
    pub fn next(&mut self) -> (r: Option<IndexItem>)
        ensures
            old(self)@.len() == 0 ==> r is None && final(self)@ == old(self)@,
            old(self)@.len() > 0 ==> final(self)@ == old(self)@.drop_last() && (r matches Some(it)
                && it@ == item_of_line(old(self)@.last())),
    {
        let ghost before = self.linebuffer.deep_view();
        match self.linebuffer.pop() {
            Some(x) => {
                proof {
                    assert(self.linebuffer.deep_view() =~~= before.drop_last());
                    assert(x@ =~= before.last());
                }
                Some(IndexItem::new(x))
            },
            None => {
                proof {
                    assert(self.linebuffer.deep_view() =~~= before);
                }
                None
            },
        }
    }
}

/// The entries one filter run yields, in the order `IndexIterator` hands
/// them out: the reverse of the filter's output lines.
pub open spec fn entries_of(output: Seq<u8>) -> Seq<SpecIndexItem> {
    let ls = output_lines(output);
    Seq::new(ls.len(), |i: int| item_of_line(ls[ls.len() - 1 - i]))
}

/// The response lines a mail client's query expects: `email \t name`, one
/// line per entry that has both an email and a name.
pub open spec fn spec_mutt_lines(es: Seq<SpecIndexItem>, i: int) -> Seq<u8>
    decreases es.len() - i when 0 <= i <= es.len()
{
    if i >= es.len() {
        Seq::empty()
    } else {
        (if es[i].email.len() > 0 && es[i].name.len() > 0 {
            es[i].email + seq![TAB] + es[i].name + seq![LF]
        } else {
            Seq::empty()
        }) + spec_mutt_lines(es, i + 1)
    }
}

/// The `name <email>` lines, one per entry that has both.
pub open spec fn spec_email_lines(es: Seq<SpecIndexItem>, i: int) -> Seq<u8>
    decreases es.len() - i when 0 <= i <= es.len()
{
    if i >= es.len() {
        Seq::empty()
    } else {
        (if es[i].name.len() > 0 && es[i].email.len() > 0 {
            es[i].name + seq![SP, LT] + es[i].email + seq![GT, LF]
        } else {
            Seq::empty()
        }) + spec_email_lines(es, i + 1)
    }
}

/// The text a mail client's query prints: one `email \t name` line per
/// useful entry of the filter output.
pub fn mutt_query(output: &Vec<u8>) -> (r: Vec<u8>)
    ensures
        r@ == spec_mutt_lines(entries_of(output@), 0),
{
    let ghost es = entries_of(output@);
    let lines = output_lines_vec(output);
    let n = lines.len();
    let mut r: Vec<u8> = Vec::new();
    let mut e: usize = 0;
    proof {
        assert(r@ + spec_mutt_lines(es, 0) =~= spec_mutt_lines(es, 0));
    }
    while e < n
        invariant
            0 <= e <= n,
            n == lines.len(),
            lines.deep_view() == output_lines(output@),
            es == entries_of(output@),
            spec_mutt_lines(es, 0) == r@ + spec_mutt_lines(es, e as int),
        decreases n - e,
    {
        let it = IndexItem::new(clone_bytes(&lines[n - 1 - e]));
        proof {
            assert(lines@[n - 1 - e as int]@ =~= lines.deep_view()[n - 1 - e as int]);
            assert(it@ == es[e as int]);
        }
        let ghost before = r@;
        if it.email.len() > 0 && it.name.len() > 0 {
            crate::serialize::append_bytes(&mut r, &it.email);
            r.push(TAB);
            crate::serialize::append_bytes(&mut r, &it.name);
            r.push(LF);
            proof {
                assert(r@ =~= before + (es[e as int].email + seq![TAB] + es[e as int].name
                    + seq![LF]));
            }
        }
        proof {
            assert(spec_mutt_lines(es, 0) =~= r@ + spec_mutt_lines(es, e + 1));
        }
        e = e + 1;
    }
    r
}

/// The text an email query prints: one `name <email>` line per useful entry
/// of the filter output.
pub fn email_query(output: &Vec<u8>) -> (r: Vec<u8>)
    ensures
        r@ == spec_email_lines(entries_of(output@), 0),
{
    let ghost es = entries_of(output@);
    let lines = output_lines_vec(output);
    let n = lines.len();
    let mut r: Vec<u8> = Vec::new();
    let mut e: usize = 0;
    proof {
        assert(r@ + spec_email_lines(es, 0) =~= spec_email_lines(es, 0));
    }
    while e < n
        invariant
            0 <= e <= n,
            n == lines.len(),
            lines.deep_view() == output_lines(output@),
            es == entries_of(output@),
            spec_email_lines(es, 0) == r@ + spec_email_lines(es, e as int),
        decreases n - e,
    {
        let it = IndexItem::new(clone_bytes(&lines[n - 1 - e]));
        proof {
            assert(lines@[n - 1 - e as int]@ =~= lines.deep_view()[n - 1 - e as int]);
            assert(it@ == es[e as int]);
        }
        let ghost before = r@;
        if it.name.len() > 0 && it.email.len() > 0 {
            crate::serialize::append_bytes(&mut r, &it.name);
            r.push(SP);
            r.push(LT);
            crate::serialize::append_bytes(&mut r, &it.email);
            r.push(GT);
            r.push(LF);
            proof {
                assert(r@ =~= before + (es[e as int].name + seq![SP, LT] + es[e as int].email
                    + seq![GT, LF]));
            }
        }
        proof {
            assert(spec_email_lines(es, 0) =~= r@ + spec_email_lines(es, e + 1));
        }
        e = e + 1;
    }
    r
}

fn contains_bytes(v: &Vec<Vec<u8>>, x: &Vec<u8>) -> (r: bool)
    ensures
        r <==> v.deep_view().contains(x@),
{
    let mut i: usize = 0;
    while i < v.len()
        invariant
            0 <= i <= v.len(),
            forall|j: int| 0 <= j < i ==> v.deep_view()[j] != x@,
        decreases v.len() - i,
    {
        proof {
            assert(v.deep_view()[i as int] =~= v@[i as int]@);
        }
        if bytes_eq(&v[i], x) {
            proof {
                assert(v.deep_view()[i as int] == x@);
            }
            return true;
        }
        i = i + 1;
    }
    false
}

/// The distinct file paths among the filter output's entries, in first-seen
/// order of the entries; entries lacking a filepath are dropped. Better than
/// reading the entries directly when only the files matter, as duplicates
/// are removed.
pub fn file_query(output: &Vec<u8>) -> (r: Vec<Vec<u8>>)
    ensures
        forall|p: Seq<u8>|
            r.deep_view().contains(p) <==> exists|e: int|
                0 <= e < entries_of(output@).len() && #[trigger] entries_of(
                    output@,
                )[e].filepath == Some(p),
        forall|i: int, j: int| 0 <= i < j < r.len() ==> r.deep_view()[i] != r.deep_view()[j],
{
    let ghost es = entries_of(output@);
    let lines = output_lines_vec(output);
    let n = lines.len();
    let mut r: Vec<Vec<u8>> = Vec::new();
    let mut e: usize = 0;
    while e < n
        invariant
            0 <= e <= n,
            n == lines.len(),
            lines.deep_view() == output_lines(output@),
            es == entries_of(output@),
            n == es.len(),
            forall|p: Seq<u8>|
                r.deep_view().contains(p) <==> exists|e2: int|
                    0 <= e2 < e && #[trigger] es[e2].filepath == Some(p),
            forall|i: int, j: int| 0 <= i < j < r.len() ==> r.deep_view()[i] != r.deep_view()[j],
        decreases n - e,
    {
        let it = IndexItem::new(clone_bytes(&lines[n - 1 - e]));
        proof {
            assert(lines@[n - 1 - e as int]@ =~= lines.deep_view()[n - 1 - e as int]);
            assert(it@ == es[e as int]);
        }
        let ghost before = r.deep_view();
        match it.filepath {
            Some(p) => {
                let ghost pv = p@;
                let dup = contains_bytes(&r, &p);
                if !dup {
                    r.push(p);
                    proof {
                        assert(r.deep_view() =~~= before.push(pv));
                    }
                }
                proof {
                    assert(es[e as int].filepath == Some(pv));
                    assert forall|q: Seq<u8>| r.deep_view().contains(q) implies exists|e2: int|
                        0 <= e2 < e + 1 && #[trigger] es[e2].filepath == Some(q) by {
                        if before.contains(q) {
                        } else {
                            let i0 = choose|i0: int|
                                0 <= i0 < r.deep_view().len() && r.deep_view()[i0] == q;
                            if i0 < before.len() {
                                assert(before[i0] == q);
                                assert(before.contains(q));
                            } else {
                                assert(q == pv);
                                assert(es[e as int].filepath == Some(q));
                            }
                        }
                    };
                    assert forall|q: Seq<u8>|
                        (exists|e2: int| 0 <= e2 < e + 1 && #[trigger] es[e2].filepath == Some(
                            q,
                        )) implies r.deep_view().contains(q) by {
                        let e2 = choose|e2: int|
                            0 <= e2 < e + 1 && #[trigger] es[e2].filepath == Some(q);
                        if e2 < e {
                            assert(before.contains(q));
                            let i0 = choose|i0: int|
                                0 <= i0 < before.len() && before[i0] == q;
                            assert(r.deep_view()[i0] == q);
                        } else {
                            assert(q == pv);
                            if dup {
                                assert(before.contains(q));
                                let i0 = choose|i0: int|
                                    0 <= i0 < before.len() && before[i0] == q;
                                assert(r.deep_view()[i0] == q);
                            } else {
                                assert(r.deep_view()[before.len() as int] == pv);
                            }
                        }
                        assert(r.deep_view().contains(q));
                    };
                }
            },
            None => {
                proof {
                    assert(es[e as int].filepath is None);
                    assert forall|q: Seq<u8>|
                        (exists|e2: int| 0 <= e2 < e + 1 && #[trigger] es[e2].filepath == Some(
                            q,
                        )) implies r.deep_view().contains(q) by {
                        let e2 = choose|e2: int|
                            0 <= e2 < e + 1 && #[trigger] es[e2].filepath == Some(q);
                        assert(e2 < e);
                    };
                }
            },
        }
        e = e + 1;
    }
    r
}

/// Split a configured filter command on spaces: the first word is the
/// program, the rest are its fixed leading arguments.
pub fn command_from_config(config_val: &Vec<u8>) -> (r: Vec<Vec<u8>>)
    ensures
        r.deep_view() == split_by(config_val@, SP),
        r.len() >= 1,
{
    let r = split_vec(config_val, SP);
    proof {
        lemma_split_from_len(config_val@, SP, 0);
    }
    r
}

} // verus!
