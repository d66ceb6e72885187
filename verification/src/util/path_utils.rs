//! Character-level path helpers shared by the record builders.

use vstd::prelude::*;

verus! {

/// The path with every backslash replaced by a forward slash.
pub open spec fn slash_path(s: Seq<char>) -> Seq<char> {
    s.map_values(|c: char| if c == '\\' { '/' } else { c })
}

pub open spec fn contains_slash(s: Seq<char>) -> bool {
    exists|i: int| 0 <= i < s.len() && s[i] == '/'
}

/// The characters after the last `/`, assuming one occurs.
pub open spec fn suffix_after_slash(s: Seq<char>) -> Seq<char>
    decreases s.len(),
{
    if s.len() == 0 {
        Seq::empty()
    } else if s[s.len() - 1] == '/' {
        Seq::empty()
    } else {
        suffix_after_slash(s.drop_last()).push(s[s.len() - 1])
    }
}

/// The file-name part of a slash-separated path: what follows the last
/// `/`, or nothing when the path holds no `/` at all.
pub open spec fn name_after_last_slash(s: Seq<char>) -> Seq<char> {
    if contains_slash(s) {
        suffix_after_slash(s)
    } else {
        Seq::empty()
    }
}

proof fn lemma_suffix_is_subrange(s: Seq<char>, j: int)
    requires
        0 < j <= s.len(),
        s[j - 1] == '/',
        forall|k: int| j <= k < s.len() ==> s[k] != '/',
    ensures
        suffix_after_slash(s) == s.subrange(j, s.len() as int),
    decreases s.len() - j,
{
    if j == s.len() {
        assert(suffix_after_slash(s) =~= s.subrange(j, s.len() as int));
    } else {
        lemma_suffix_is_subrange(s.drop_last(), j);
        assert(suffix_after_slash(s) =~= s.subrange(j, s.len() as int));
    }
}

/// Replaces every backslash in `s` by a forward slash.
pub fn to_slash_path(s: &str) -> (r: String)
    ensures
        r@ == slash_path(s@),
{
    let n = s.unicode_len();
    let mut out = String::new();
    let mut i: usize = 0;
    while i < n
        invariant
            n == s@.len(),
            i <= n,
            out@ =~= slash_path(s@.subrange(0, i as int)),
        decreases n - i,
    {
        let c = s.get_char(i);
        if c == '\\' {
            out.append("/");
            proof {
                reveal_strlit("/");
            }
        } else {
            out.append(s.substring_char(i, i + 1));
        }
        proof {
            assert(s@.subrange(0, i + 1) =~= s@.subrange(0, i as int).push(s@[i as int]));
            assert(out@ =~= slash_path(s@.subrange(0, i + 1)));
        }
        i = i + 1;
    }
    proof {
        assert(s@.subrange(0, n as int) =~= s@);
    }
    out
}

/// The name after the last `/` of `s`; empty when `s` holds no `/`.
pub fn file_name_of(s: &str) -> (r: String)
    ensures
        r@ == name_after_last_slash(s@),
{
    let n = s.unicode_len();
    let mut j: usize = n;
    while j > 0
        invariant
            n == s@.len(),
            j <= n,
            forall|k: int| j <= k < n ==> s@[k] != '/',
        decreases j,
    {
        if s.get_char(j - 1) == '/' {
            let name = s.substring_char(j, n);
            proof {
                lemma_suffix_is_subrange(s@, j as int);
            }
            return String::from_str(name);
        }
        j = j - 1;
    }
    proof {
        assert(!contains_slash(s@));
    }
    String::new()
}

} // verus!
