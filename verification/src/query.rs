//! The query parser: splits a raw search string into free query text and an
//! optional folder-root filter, introduced by a leading `>` marker.

use vstd::prelude::*;
use vstd::string::StrSliceExecFns;

verus! {

/// The first index at or after `i` holding something other than `>`, or the
/// string's end.
pub open spec fn gt_start(s: Seq<char>, i: int) -> int
    decreases s.len() - i,
{
    if i < 0 || i >= s.len() || s[i] != '>' {
        i
    } else {
        gt_start(s, i + 1)
    }
}

/// The position reached from `j` by walking left over trailing `>`
/// characters.
pub open spec fn gt_end(s: Seq<char>, j: int) -> int
    decreases j,
{
    if j <= 0 || j > s.len() || s[j - 1] != '>' {
        j
    } else {
        gt_end(s, j - 1)
    }
}

/// The string with every leading and trailing `>` removed.
pub open spec fn trim_gt(s: Seq<char>) -> Seq<char> {
    let a = gt_start(s, 0);
    let b = gt_end(s, s.len() as int);
    if a <= b {
        s.subrange(a, b)
    } else {
        Seq::empty()
    }
}

/// The first index at or after `i` holding a space, or the string's end.
pub open spec fn first_space(s: Seq<char>, i: int) -> int
    decreases s.len() - i,
{
    if i < 0 || i >= s.len() || s[i] == ' ' {
        i
    } else {
        first_space(s, i + 1)
    }
}

/// Everything before the first space: the first whitespace-delimited token.
pub open spec fn first_token(s: Seq<char>) -> Seq<char> {
    s.subrange(0, first_space(s, 0))
}

proof fn lemma_gt_start_is(s: Seq<char>, a: int)
    requires
        0 <= a <= s.len(),
        forall|k: int| 0 <= k < a ==> s[k] == '>',
        a < s.len() ==> s[a] != '>',
    ensures
        gt_start(s, 0) == a,
{
    lemma_gt_start_props(s, 0);
    let g = gt_start(s, 0);
    if g < a {
        assert(s[g] == '>');
    }
    if a < g {
        assert(s[a] == '>');
    }
}

proof fn lemma_gt_start_props(s: Seq<char>, i: int)
    requires
        0 <= i <= s.len(),
    ensures
        i <= gt_start(s, i) <= s.len(),
        forall|k: int| i <= k < gt_start(s, i) ==> s[k] == '>',
        gt_start(s, i) < s.len() ==> s[gt_start(s, i)] != '>',
    decreases s.len() - i,
{
    if i < s.len() && s[i] == '>' {
        lemma_gt_start_props(s, i + 1);
    }
}

proof fn lemma_gt_end_is(s: Seq<char>, b: int)
    requires
        0 <= b <= s.len(),
        forall|k: int| b <= k < s.len() ==> s[k] == '>',
        b > 0 ==> s[b - 1] != '>',
    ensures
        gt_end(s, s.len() as int) == b,
{
    lemma_gt_end_props(s, s.len() as int);
    let g = gt_end(s, s.len() as int);
    if g < b {
        assert(s[b - 1] == '>');
    }
    if b < g {
        assert(s[g - 1] == '>');
    }
}

proof fn lemma_gt_end_props(s: Seq<char>, j: int)
    requires
        0 <= j <= s.len(),
    ensures
        0 <= gt_end(s, j) <= j,
        forall|k: int| gt_end(s, j) <= k < j ==> s[k] == '>',
        gt_end(s, j) > 0 ==> s[gt_end(s, j) - 1] != '>',
    decreases j,
{
    if j > 0 && s[j - 1] == '>' {
        lemma_gt_end_props(s, j - 1);
    }
}

proof fn lemma_first_space_is(s: Seq<char>, t: int)
    requires
        0 <= t <= s.len(),
        forall|k: int| 0 <= k < t ==> s[k] != ' ',
        t < s.len() ==> s[t] == ' ',
    ensures
        first_space(s, 0) == t,
{
    lemma_first_space_props(s, 0);
    let g = first_space(s, 0);
    if g < t {
        assert(s[g] != ' ');
    }
    if t < g {
        assert(s[t] != ' ');
    }
}

proof fn lemma_first_space_props(s: Seq<char>, i: int)
    requires
        0 <= i <= s.len(),
    ensures
        i <= first_space(s, i) <= s.len(),
        forall|k: int| i <= k < first_space(s, i) ==> s[k] != ' ',
        first_space(s, i) < s.len() ==> s[first_space(s, i)] == ' ',
    decreases s.len() - i,
{
    if i < s.len() && s[i] != ' ' {
        lemma_first_space_props(s, i + 1);
    }
}

/// Removes every leading and trailing `>` of `x`, as a subslice.
fn trim_gt_str<'a>(x: &'a str) -> (r: &'a str)
    ensures
        r@ == trim_gt(x@),
{
    let len = x.unicode_len();
    let mut a: usize = 0;
    loop
        invariant
            a <= len,
            len == x@.len(),
            forall|k: int| 0 <= k < a ==> x@[k] == '>',
        ensures
            a <= len,
            len == x@.len(),
            forall|k: int| 0 <= k < a ==> x@[k] == '>',
            a == len || x@[a as int] != '>',
        decreases len - a,
    {
        if a == len {
            break ;
        }
        if x.get_char(a) != '>' {
            break ;
        }
        a = a + 1;
    }
    let mut b: usize = len;
    loop
        invariant
            b <= len,
            len == x@.len(),
            forall|k: int| b <= k < len ==> x@[k] == '>',
        ensures
            b <= len,
            forall|k: int| b <= k < len ==> x@[k] == '>',
            b == 0 || x@[b as int - 1] != '>',
        decreases b,
    {
        if b == 0 {
            break ;
        }
        if x.get_char(b - 1) != '>' {
            break ;
        }
        b = b - 1;
    }
    proof {
        lemma_gt_start_is(x@, a as int);
        lemma_gt_end_is(x@, b as int);
    }
    if a <= b {
        x.substring_char(a, b)
    } else {
        let r = x.substring_char(a, a);
        proof {
            assert(r@ =~= Seq::<char>::empty());
        }
        r
    }
}

/// Splits a raw search string. An empty string stays as it is, with no root
/// filter. A string opening with the `>` marker yields the whole string with
/// the marker stripped from both ends as the query text, and its first
/// whitespace-delimited token, marker likewise stripped, as the root filter.
/// Any other string passes through unchanged, with no root filter.
pub fn split_gt<'a>(s: &'a str) -> (r: (&'a str, &'a str))
    ensures
        s@.len() == 0 ==> r.0@ == s@ && r.1@ == Seq::<char>::empty(),
        s@.len() > 0 && s@[0] == '>' ==> r.0@ == trim_gt(s@) && r.1@ == trim_gt(first_token(s@)),
        s@.len() > 0 && s@[0] != '>' ==> r.0@ == s@ && r.1@ == Seq::<char>::empty(),
{
    let len = s.unicode_len();
    if len == 0 {
        let empty = "";
        proof {
            reveal_strlit("");
            assert(empty@ =~= Seq::<char>::empty());
        }
        return (s, empty);
    }
    if s.get_char(0) == '>' {
        let left = trim_gt_str(s);
        let mut t: usize = 0;
        loop
            invariant
                t <= len,
                len == s@.len(),
                forall|k: int| 0 <= k < t ==> s@[k] != ' ',
            ensures
                t <= len,
                len == s@.len(),
                forall|k: int| 0 <= k < t ==> s@[k] != ' ',
                t == len || s@[t as int] == ' ',
            decreases len - t,
        {
            if t == len {
                break ;
            }
            if s.get_char(t) == ' ' {
                break ;
            }
            t = t + 1;
        }
        let tok = s.substring_char(0, t);
        proof {
            lemma_first_space_is(s@, t as int);
        }
        let right = trim_gt_str(tok);
        (left, right)
    } else {
        let empty = "";
        proof {
            reveal_strlit("");
            assert(empty@ =~= Seq::<char>::empty());
        }
        (s, empty)
    }
}

} // verus!
