//! Splitting a sender out of an email's `From` header value: the optional
//! display name and the address. Finding that header in raw mail text is the
//! surrounding program's business — the outside RFC 5322 parser it uses can
//! abort on crafted encoded words, which no verified function may do.

use vstd::prelude::*;

use crate::bytes::{copy_range, last_before, rfind_byte, GT, LT};

verus! {

/// The value after dropping every trailing `>`.
pub open spec fn spec_trim_gt(s: Seq<u8>) -> Seq<u8>
    decreases s.len(),
{
    if s.len() > 0 && s[s.len() - 1] == GT {
        spec_trim_gt(s.drop_last())
    } else {
        s
    }
}

/// Split a `From` header value at the last `<` into the optional display
/// name before it and the address after it, the address stripped of its
/// trailing `>` marks. Without a `<` the whole value is the address and
/// there is no name; a name keeps any spacing it had.
pub fn parse_from_header(s: &Vec<u8>) -> (r: (Option<Vec<u8>>, Option<Vec<u8>>))
    ensures
        ({
            let lt = last_before(s@, LT, s@.len() as int);
            &&& lt >= 0 ==> (r.0 matches Some(nm) && nm@ == s@.subrange(0, lt))
            &&& lt == -1 ==> r.0 is None
            &&& r.1 matches Some(em) && em@ == spec_trim_gt(s@.subrange(lt + 1, s@.len() as int))
        }),
{
    let ghost lt = last_before(s@, LT, s@.len() as int);
    let (name, after): (Option<Vec<u8>>, usize) = match rfind_byte(s, LT, s.len()) {
        Some(k) => (Some(copy_range(s, 0, k)), k + 1),
        None => (None, 0),
    };
    let mut email = copy_range(s, after, s.len());
    let ghost orig = email@;
    while email.len() > 0 && email[email.len() - 1] == GT
        invariant
            spec_trim_gt(orig) == spec_trim_gt(email@),
        decreases email.len(),
    {
        let ghost eb = email@;
        email.pop();
        proof {
            assert(email@ =~= eb.drop_last());
        }
    }
    proof {
        assert(spec_trim_gt(email@) == email@);
        assert(orig =~= s@.subrange(lt + 1, s@.len() as int));
    }
    (name, Some(email))
}

} // verus!
