//! Rename normalization: a path printed by the version-control log may carry
//! a rename marker, either `prefix{old => new}suffix` or a bare
//! `old => new`; queries and aggregation always work on the post-rename path.
use vstd::prelude::*;

use crate::text::{
    arrow_idx, find_arrow_or_len, find_char_or_len, has_arrow, idx_of, lemma_arrow_idx,
    lemma_idx_of, trim_exec, trim_of,
};

verus! {

/// A rename notation this crate undertakes to handle: if the text holds both
/// a `=>` marker and a `{`, then a `}` must follow the first `{`, with a
/// `=>` between them. Unbalanced notations are out of contract.
pub open spec fn wf_rename(s: Seq<char>) -> bool {
    has_arrow(s) && idx_of(s, '{') < s.len() ==> {
        let rest = s.skip(idx_of(s, '{') as int + 1);
        let j = idx_of(rest, '}');
        j < rest.len() && has_arrow(rest.take(j as int))
    }
}

/// The post-rename form of a path:
/// - no `=>` marker: the text itself, unchanged;
/// - `=>` without braces: the trimmed text after the first `=>`;
/// - `prefix{seg}suffix` where `seg` holds `=>`: the prefix, then the trimmed
///   text of `seg` after its first `=>`, then the suffix after the first `}`.
pub open spec fn spec_normalize(s: Seq<char>) -> Seq<char> {
    if !has_arrow(s) {
        s
    } else if idx_of(s, '{') >= s.len() {
        trim_of(s.skip(arrow_idx(s) as int + 2))
    } else {
        let i = idx_of(s, '{') as int;
        let rest = s.skip(i + 1);
        let j = idx_of(rest, '}') as int;
        let seg = rest.take(j);
        let k = arrow_idx(seg) as int;
        s.take(i) + trim_of(seg.skip(k + 2)) + rest.skip(j + 1)
    }
}

/// Canonicalizes a rename notation to the new path; text without a `=>`
/// marker comes back unchanged.
pub fn normalize_fname(fname: &str) -> (r: String)
    requires
        wf_rename(fname@),
    ensures
        r@ == spec_normalize(fname@),
{
    let n = fname.unicode_len();
    proof {
        lemma_arrow_idx(fname@);
        lemma_idx_of(fname@, '{');
    }
    if n < 2 {
        return fname.to_owned();
    }
    let a = find_arrow_or_len(fname);
    if a > n - 2 {
        proof {
            assert(!has_arrow(fname@));
        }
        return fname.to_owned();
    }
    let i = find_char_or_len(fname, '{');
    if i >= n {
        let after = fname.substring_char(a + 2, n);
        proof {
            assert(after@ =~= fname@.skip(a as int + 2));
        }
        let t = trim_exec(after);
        t.to_owned()
    } else {
        let rest = fname.substring_char(i + 1, n);
        proof {
            assert(rest@ =~= fname@.skip(i as int + 1));
            lemma_idx_of(rest@, '}');
        }
        let j = find_char_or_len(rest, '}');
        let seg = rest.substring_char(0, j);
        proof {
            assert(seg@ =~= rest@.take(j as int));
            lemma_arrow_idx(seg@);
        }
        let k = find_arrow_or_len(seg);
        let newname = seg.substring_char(k + 2, j);
        proof {
            assert(newname@ =~= seg@.skip(k as int + 2));
        }
        let newname = trim_exec(newname);
        let mut out = fname.substring_char(0, i).to_owned();
        out.append(newname);
        let rn = rest.unicode_len();
        let suffix = rest.substring_char(j + 1, rn);
        proof {
            assert(suffix@ =~= rest@.skip(j as int + 1));
        }
        out.append(suffix);
        proof {
            assert(out@ =~= spec_normalize(fname@));
        }
        out
    }
}

} // verus!
