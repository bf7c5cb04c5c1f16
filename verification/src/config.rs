//! The configuration a run works under: where the index file lives, where
//! the card files live, and which line-filter command searches the index.
//! The surrounding program reads the environment and hands the raw values
//! in; the defaulting rules live here.

use vstd::prelude::*;

use crate::bytes::{clone_bytes, SLASH};

verus! {

/// `PathBuf::join` on byte paths: an absolute right side replaces the left.
pub open spec fn spec_path_join(a: Seq<u8>, b: Seq<u8>) -> Seq<u8> {
    if b.len() > 0 && b[0] == SLASH {
        b
    } else if a.len() > 0 && a[a.len() - 1] == SLASH {
        a + b
    } else {
        a + seq![SLASH] + b
    }
}

/// Join two paths as `PathBuf::join` would.
pub fn path_join(a: &Vec<u8>, b: &Vec<u8>) -> (r: Vec<u8>)
    ensures
        r@ == spec_path_join(a@, b@),
{
    if b.len() > 0 && b[0] == SLASH {
        return clone_bytes(b);
    }
    let mut r = clone_bytes(a);
    if !(a.len() > 0 && a[a.len() - 1] == SLASH) {
        r.push(SLASH);
    }
    let mut t = clone_bytes(b);
    r.append(&mut t);
    proof {
        assert(r@ =~= spec_path_join(a@, b@));
    }
    r
}

/// The default index file name under the home directory.
pub open spec fn spec_index_file_name() -> Seq<u8> {
    seq![46u8, 109u8, 97u8, 116u8, 101u8, 115u8, 95u8, 105u8, 110u8, 100u8, 101u8, 120u8]
}

/// `.mates_index`.
pub fn index_file_name() -> (r: Vec<u8>)
    ensures
        r@ == spec_index_file_name(),
{
    let mut v: Vec<u8> = Vec::new();
    v.push(46);
    v.push(109);
    v.push(97);
    v.push(116);
    v.push(101);
    v.push(115);
    v.push(95);
    v.push(105);
    v.push(110);
    v.push(100);
    v.push(101);
    v.push(120);
    proof {
        assert(v@ =~= spec_index_file_name());
    }
    v
}

/// The default filter command, a case-insensitive grep.
pub open spec fn spec_default_grep() -> Seq<u8> {
    seq![103u8, 114u8, 101u8, 112u8, 32u8, 45u8, 105u8]
}

/// `grep -i`.
pub fn default_grep() -> (r: Vec<u8>)
    ensures
        r@ == spec_default_grep(),
{
    let mut v: Vec<u8> = Vec::new();
    v.push(103);
    v.push(114);
    v.push(101);
    v.push(112);
    v.push(32);
    v.push(45);
    v.push(105);
    proof {
        assert(v@ =~= spec_default_grep());
    }
    v
}

/// Where the index lives, where the cards live, and what filters the index.
#[derive(Debug)]
pub struct Configuration {
    pub index_path: Vec<u8>,
    pub vdir_path: Vec<u8>,
    pub grep_cmd: Vec<u8>,
}

impl Configuration {
    /// Build the configuration from the raw environment values: the working
    /// directory and the index, home, card-directory and filter settings.
    /// The index path falls back to `.mates_index` under the home directory,
    /// the filter to `grep -i`; the card directory has no fallback.
    pub fn new(
        pwd: &Vec<u8>,
        index_var: Option<Vec<u8>>,
        home_var: Option<Vec<u8>>,
        dir_var: Option<Vec<u8>>,
        grep_var: Option<Vec<u8>>,
    ) -> (r: Result<Configuration, String>)
        ensures
            r is Err <==> (index_var is None && home_var is None) || ((index_var is Some
                || home_var is Some) && dir_var is None),
            r matches Ok(c) ==> {
                &&& dir_var matches Some(d) && c.vdir_path@ == d@
                &&& (index_var matches Some(x) ==> c.index_path@ == x@)
                &&& (index_var is None ==> (home_var matches Some(h) && c.index_path@
                    == spec_path_join(spec_path_join(pwd@, h@), spec_index_file_name())))
                &&& (grep_var matches Some(g) ==> c.grep_cmd@ == g@)
                &&& (grep_var is None ==> c.grep_cmd@ == spec_default_grep())
            },
            r matches Err(e) ==> {
                ||| (index_var is None && home_var is None && e@
                    == "Unable to determine user's home directory."@)
                ||| ((index_var is Some || home_var is Some) && dir_var is None && e@
                    == "MATES_DIR must be set to your vdir path (directory of vcf-files)."@)
            },
    {
        let index_path = match index_var {
            Some(x) => x,
            None => match home_var {
                Some(home) => {
                    let joined = path_join(pwd, &home);
                    let name = index_file_name();
                    path_join(&joined, &name)
                },
                None => {
                    return Err("Unable to determine user's home directory.".to_owned());
                },
            },
        };
        let vdir_path = match dir_var {
            Some(x) => x,
            None => {
                return Err(
                    "MATES_DIR must be set to your vdir path (directory of vcf-files).".to_owned(),
                );
            },
        };
        let grep_cmd = match grep_var {
            Some(x) => x,
            None => default_grep(),
        };
        Ok(Configuration { index_path, vdir_path, grep_cmd })
    }
}

/// An error carried to the top of the program, as a message.
pub struct MainError {
    desc: String,
}

impl View for MainError {
    type V = Seq<char>;

    closed spec fn view(&self) -> Seq<char> {
        self.desc@
    }
}

impl MainError {
    pub fn new(desc: String) -> (r: MainError)
        ensures
            r@ == desc@,
    {
        MainError { desc }
    }

    /// The message, for the surrounding program to print.
    pub fn message(&self) -> (r: &String)
        ensures
            r@ == self@,
    {
        &self.desc
    }
}

} // verus!
