//! Names of the files that the reports are written to.

use vstd::prelude::*;

use crate::Graph;

verus! {

/// `pos` holds the last `.` of `s`.
pub open spec fn is_last_dot(s: Seq<char>, pos: int) -> bool {
    &&& 0 <= pos < s.len()
    &&& s[pos] == '.'
    &&& forall|m: int| pos < m < s.len() ==> s[m] != '.'
}

/// `s` without the part from its last `.` on; `s` itself when it has no `.`.
pub open spec fn without_extension(s: Seq<char>) -> Seq<char> {
    if exists|pos: int| is_last_dot(s, pos) {
        s.subrange(0, choose|pos: int| is_last_dot(s, pos))
    } else {
        s
    }
}

/// `s` up to its last `.`.
fn strip_extension(s: &str) -> (r: String)
    ensures
        r@ == without_extension(s@),
{
    let len = s.unicode_len();
    let mut i: usize = len;
    while i > 0
        invariant
            len == s@.len(),
            i <= len,
            forall|m: int| i <= m < len ==> s@[m] != '.',
        decreases i,
    {
        if s.get_char(i - 1) == '.' {
            let pos = i - 1;
            proof {
                assert(is_last_dot(s@, pos as int));
                let p2 = choose|p2: int| is_last_dot(s@, p2);
                if p2 < pos {
                    assert(s@[pos as int] == '.');
                } else if pos < p2 {
                    assert(s@[p2] == '.');
                }
            }
            return s.substring_char(0, pos).to_owned();
        }
        i = i - 1;
    }
    proof {
        if exists|pos: int| is_last_dot(s@, pos) {
            let p2 = choose|p2: int| is_last_dot(s@, p2);
            assert(s@[p2] == '.');
        }
    }
    s.to_owned()
}

impl Graph {
    /// The input file name without its extension.
    pub fn get_base_filename(input_name: &str) -> (r: String)
        ensures
            r@ == without_extension(input_name@),
    {
        strip_extension(input_name)
    }

    /// A file name without its extension.
    pub fn remove_file_extension(file_name: &str) -> (r: String)
        ensures
            r@ == without_extension(file_name@),
    {
        strip_extension(file_name)
    }

    /// The name of a report on one graph: base name, suffix, `.TXT`.
    pub fn get_output_filename(base_name: &str, suffix: &str) -> (r: String)
        ensures
            r@ == base_name@ + suffix@ + ".TXT"@,
    {
        let mut r = String::from_str(base_name);
        r.append(suffix);
        r.append(".TXT");
        r
    }

    /// The name of the subgraph report on `base_g` and `base_h`.
    pub fn create_output_filename(base_g: &str, base_h: &str) -> (r: String)
        ensures
            r@ == base_g@ + "-"@ + base_h@ + "-SUBGRAPH.TXT"@,
    {
        let mut r = String::from_str(base_g);
        r.append("-");
        r.append(base_h);
        r.append("-SUBGRAPH.TXT");
        r
    }
}

} // verus!
