//! The path data model: an ordered, immutable sequence of directory/file
//! components, with prefix tests, parent derivation, structural equality and
//! a total lexicographic order over components.

use vstd::prelude::*;
use vstd::string::StrSliceExecFns;
use vstd::string::StringExecFns;

verus! {

/// A path, stored as its ordered list of components. `/hello/world` is
/// `["hello", "world"]`; the filesystem root is the empty component list,
/// the explicit terminal value of the parent walk.
#[derive(Debug)]
pub struct DirPath {
    components: Vec<String>,
}

impl View for DirPath {
    type V = Seq<Seq<char>>;

    closed spec fn view(&self) -> Seq<Seq<char>> {
        self.components@.map_values(|c: String| c@)
    }
}

/// The smaller of two integers.
pub open spec fn min2(a: int, b: int) -> int {
    if a <= b {
        a
    } else {
        b
    }
}

/// The first index at or after `i` where `a` and `b` disagree, or the length
/// of the shorter sequence when they agree everywhere from `i` on.
pub open spec fn mismatch_from<A>(a: Seq<A>, b: Seq<A>, i: int) -> int
    decreases min2(a.len() as int, b.len() as int) - i,
{
    if i < 0 || i >= min2(a.len() as int, b.len() as int) || a[i] != b[i] {
        i
    } else {
        mismatch_from(a, b, i + 1)
    }
}

/// The length of the longest common prefix of `a` and `b`.
pub open spec fn agree_len<A>(a: Seq<A>, b: Seq<A>) -> int {
    mismatch_from(a, b, 0)
}

/// `p` is an ancestor of `a`, or equal to it.
pub open spec fn is_prefix<A>(p: Seq<A>, a: Seq<A>) -> bool {
    p.len() <= a.len() && p == a.subrange(0, p.len() as int)
}

proof fn lemma_mismatch_from<A>(a: Seq<A>, b: Seq<A>, i: int)
    requires
        0 <= i <= min2(a.len() as int, b.len() as int),
    ensures
        i <= mismatch_from(a, b, i) <= min2(a.len() as int, b.len() as int),
        forall|j: int| i <= j < mismatch_from(a, b, i) ==> a[j] == b[j],
        mismatch_from(a, b, i) < min2(a.len() as int, b.len() as int) ==> a[mismatch_from(
            a,
            b,
            i,
        )] != b[mismatch_from(a, b, i)],
    decreases min2(a.len() as int, b.len() as int) - i,
{
    if i < min2(a.len() as int, b.len() as int) && a[i] == b[i] {
        lemma_mismatch_from(a, b, i + 1);
    }
}

/// What the longest-common-prefix length says: the sequences agree below it,
/// and disagree at it unless one of them ends there.
pub proof fn lemma_agree_len<A>(a: Seq<A>, b: Seq<A>)
    ensures
        0 <= agree_len(a, b) <= min2(a.len() as int, b.len() as int),
        forall|j: int| 0 <= j < agree_len(a, b) ==> a[j] == b[j],
        agree_len(a, b) < min2(a.len() as int, b.len() as int) ==> a[agree_len(a, b)]
            != b[agree_len(a, b)],
{
    lemma_mismatch_from(a, b, 0);
}

/// Any index with the first-disagreement properties is the agreement length.
pub proof fn lemma_agree_len_is<A>(a: Seq<A>, b: Seq<A>, m: int)
    requires
        0 <= m <= min2(a.len() as int, b.len() as int),
        forall|j: int| 0 <= j < m ==> a[j] == b[j],
        m < min2(a.len() as int, b.len() as int) ==> a[m] != b[m],
    ensures
        agree_len(a, b) == m,
{
    lemma_agree_len(a, b);
    let g = agree_len(a, b);
    if g < m {
        assert(a[g] == b[g]);
    }
    if m < g {
        assert(a[m] == b[m]);
    }
}

/// The agreement length does not depend on the argument order.
pub proof fn lemma_agree_len_sym<A>(a: Seq<A>, b: Seq<A>)
    ensures
        agree_len(a, b) == agree_len(b, a),
{
    lemma_agree_len(a, b);
    lemma_agree_len_is(b, a, agree_len(a, b));
}

/// One character before another, by code point.
pub open spec fn char_lt(x: char, y: char) -> bool {
    (x as int) < (y as int)
}

/// One component strictly before another, lexicographically by code point.
pub open spec fn chars_lt(a: Seq<char>, b: Seq<char>) -> bool {
    let m = agree_len(a, b);
    (m == a.len() && m < b.len()) || (m < a.len() && m < b.len() && char_lt(a[m], b[m]))
}

/// One path strictly before another: lexicographic over components, each
/// component pair ordered by `chars_lt`.
pub open spec fn path_lt(a: Seq<Seq<char>>, b: Seq<Seq<char>>) -> bool {
    let m = agree_len(a, b);
    (m == a.len() && m < b.len()) || (m < a.len() && m < b.len() && chars_lt(a[m], b[m]))
}

/// Two equal-agreement sequences of the same length are equal.
proof fn lemma_agree_full<A>(a: Seq<A>, b: Seq<A>)
    requires
        a.len() == b.len(),
        agree_len(a, b) == a.len(),
    ensures
        a == b,
{
    lemma_agree_len(a, b);
    assert(a =~= b);
}

/// `chars_lt` is a strict total order: exactly one of `a == b`,
/// `chars_lt(a, b)`, `chars_lt(b, a)` holds.
pub proof fn lemma_chars_lt_trichotomy(a: Seq<char>, b: Seq<char>)
    ensures
        a == b || chars_lt(a, b) || chars_lt(b, a),
        chars_lt(a, b) ==> a != b,
        chars_lt(a, b) ==> !chars_lt(b, a),
{
    lemma_agree_len(a, b);
    lemma_agree_len_sym(a, b);
    let m = agree_len(a, b);
    if m == a.len() && m == b.len() {
        lemma_agree_full(a, b);
        assert(a == b);
    } else if m == a.len() {
        assert(chars_lt(a, b));
    } else if m == b.len() {
        assert(chars_lt(b, a));
    } else {
        assert(a[m] != b[m]);
        if (a[m] as int) < (b[m] as int) {
            assert(chars_lt(a, b));
        } else if (b[m] as int) < (a[m] as int) {
            assert(chars_lt(b, a));
        } else {
            assert(a[m] == b[m]);
            assert(false);
        }
    }
    if chars_lt(a, b) && a == b {
        lemma_agree_full(a, a);
    }
}

/// `path_lt` is a strict total order: exactly one of `a == b`,
/// `path_lt(a, b)`, `path_lt(b, a)` holds.
pub proof fn lemma_path_lt_trichotomy(a: Seq<Seq<char>>, b: Seq<Seq<char>>)
    ensures
        a == b || path_lt(a, b) || path_lt(b, a),
        path_lt(a, b) ==> a != b,
        path_lt(a, b) ==> !path_lt(b, a),
{
    lemma_agree_len(a, b);
    lemma_agree_len_sym(a, b);
    let m = agree_len(a, b);
    if m == a.len() && m == b.len() {
        lemma_agree_full(a, b);
    }
    if m < a.len() && m < b.len() {
        lemma_chars_lt_trichotomy(a[m], b[m]);
    }
    if path_lt(a, b) && a == b {
        lemma_agree_full(a, a);
    }
}

/// `chars_lt` is transitive.
pub proof fn lemma_chars_lt_trans(a: Seq<char>, b: Seq<char>, c: Seq<char>)
    requires
        chars_lt(a, b),
        chars_lt(b, c),
    ensures
        chars_lt(a, c),
{
    lemma_agree_len(a, b);
    lemma_agree_len(b, c);
    lemma_agree_len(a, c);
    let mab = agree_len(a, b);
    let mbc = agree_len(b, c);
    let t = min2(mab, mbc);
    assert(forall|j: int| 0 <= j < t ==> a[j] == c[j]);
    if mab < mbc {
        // The deciding index of `a` against `b` also decides against `c`.
        assert(b[mab] == c[mab]);
        lemma_agree_len_is(a, c, mab);
    } else if mbc < mab {
        // `b` and `c` part first; `a` agrees with `b` there.
        assert(a[mbc] == b[mbc]);
        lemma_agree_len_is(a, c, mbc);
    } else {
        // Both comparisons decide at the same index.
        lemma_agree_len_is(a, c, mab);
    }
}

/// `path_lt` is transitive.
pub proof fn lemma_path_lt_trans(a: Seq<Seq<char>>, b: Seq<Seq<char>>, c: Seq<Seq<char>>)
    requires
        path_lt(a, b),
        path_lt(b, c),
    ensures
        path_lt(a, c),
{
    lemma_agree_len(a, b);
    lemma_agree_len(b, c);
    lemma_agree_len(a, c);
    let mab = agree_len(a, b);
    let mbc = agree_len(b, c);
    if mab < mbc {
        assert(b[mab] == c[mab]);
        if mab < a.len() {
            lemma_chars_lt_trichotomy(a[mab], b[mab]);
        }
        lemma_agree_len_is(a, c, mab);
    } else if mbc < mab {
        assert(a[mbc] == b[mbc]);
        lemma_chars_lt_trichotomy(b[mbc], c[mbc]);
        lemma_agree_len_is(a, c, mbc);
    } else {
        if mab < a.len() && mab < b.len() && mbc < c.len() {
            lemma_chars_lt_trans(a[mab], b[mab], c[mab]);
            lemma_chars_lt_trichotomy(a[mab], c[mab]);
        }
        lemma_agree_len_is(a, c, mab);
    }
}

/// Prefixing is reflexive.
pub proof fn lemma_prefix_refl<A>(a: Seq<A>)
    ensures
        is_prefix(a, a),
{
    assert(a =~= a.subrange(0, a.len() as int));
}

/// A prefix agrees with the longer sequence index by index.
pub proof fn lemma_prefix_index<A>(p: Seq<A>, a: Seq<A>)
    requires
        is_prefix(p, a),
    ensures
        forall|j: int| 0 <= j < p.len() ==> p[j] == a[j],
{
    assert forall|j: int| 0 <= j < p.len() implies p[j] == a[j] by {
        assert(p[j] == a.subrange(0, p.len() as int)[j]);
    }
}

/// Index-by-index agreement up to its length makes a sequence a prefix.
pub proof fn lemma_prefix_from_index<A>(p: Seq<A>, a: Seq<A>)
    requires
        p.len() <= a.len(),
        forall|j: int| 0 <= j < p.len() ==> p[j] == a[j],
    ensures
        is_prefix(p, a),
{
    assert(p =~= a.subrange(0, p.len() as int));
}

/// Prefixing is transitive.
pub proof fn lemma_prefix_trans<A>(p: Seq<A>, q: Seq<A>, a: Seq<A>)
    requires
        is_prefix(p, q),
        is_prefix(q, a),
    ensures
        is_prefix(p, a),
{
    lemma_prefix_index(p, q);
    lemma_prefix_index(q, a);
    lemma_prefix_from_index(p, a);
}

/// Two prefixes of one sequence are ordered by length: the shorter is a
/// prefix of the longer.
pub proof fn lemma_prefix_chain<A>(p: Seq<A>, q: Seq<A>, a: Seq<A>)
    requires
        is_prefix(p, a),
        is_prefix(q, a),
        p.len() <= q.len(),
    ensures
        is_prefix(p, q),
{
    lemma_prefix_index(p, a);
    lemma_prefix_index(q, a);
    lemma_prefix_from_index(p, q);
}

/// A strict ancestor comes before its descendants in the path order.
pub proof fn lemma_prefix_path_lt(p: Seq<Seq<char>>, a: Seq<Seq<char>>)
    requires
        is_prefix(p, a),
        p.len() < a.len(),
    ensures
        path_lt(p, a),
{
    lemma_prefix_index(p, a);
    lemma_agree_len_is(p, a, p.len() as int);
}

/// The ellipsis component that marks a truncated display path.
pub open spec fn ellipsis_seq() -> Seq<char> {
    seq!['.', '.', '.']
}

/// The literal ellipsis component, as an owned string.
pub fn ellipsis_component() -> (s: String)
    ensures
        s@ == ellipsis_seq(),
{
    let e = "...";
    proof {
        reveal_strlit("...");
        assert(e@ =~= ellipsis_seq());
    }
    e.to_owned()
}

impl DirPath {
    /// The root path: no components at all.
    pub fn new() -> (r: DirPath)
        ensures
            r@ == Seq::<Seq<char>>::empty(),
    {
        let r = DirPath { components: Vec::new() };
        proof {
            assert(r@ =~= Seq::<Seq<char>>::empty());
        }
        r
    }

    /// How many components the path has.
    pub fn depth(&self) -> (n: usize)
        ensures
            n == self@.len(),
    {
        self.components.len()
    }

    /// One component, by position.
    pub fn component(&self, i: usize) -> (c: &String)
        requires
            i < self@.len(),
        ensures
            c@ == self@[i as int],
    {
        &self.components[i]
    }

    /// Appends one component at the end.
    pub fn push(&mut self, c: String)
        ensures
            final(self)@ == old(self)@.push(c@),
    {
        self.components.push(c);
        proof {
            assert(self@ =~= old(self)@.push(c@));
        }
    }

    /// An independent copy of the path.
    pub fn duplicate(&self) -> (r: DirPath)
        ensures
            r@ == self@,
    {
        let mut out: Vec<String> = Vec::new();
        let n = self.components.len();
        let mut i: usize = 0;
        while i < n
            invariant
                i <= n,
                n == self.components.len(),
                out@.len() == i,
                forall|j: int| 0 <= j < i ==> out@[j] == self.components@[j],
            decreases n - i,
        {
            out.push(self.components[i].clone());
            i = i + 1;
        }
        let r = DirPath { components: out };
        proof {
            assert(r@ =~= self@);
        }
        r
    }

    /// The parent path, or nothing at the root: "no parent" is a normal
    /// terminal condition, not an error.
    pub fn parent(&self) -> (r: Option<DirPath>)
        ensures
            self@.len() == 0 ==> r is None,
            self@.len() > 0 ==> r is Some && r.unwrap()@ == self@.drop_last(),
    {
        if self.components.len() == 0 {
            None
        } else {
            let mut d = self.duplicate();
            d.components.pop();
            proof {
                assert(d@ =~= self@.drop_last());
            }
            Some(d)
        }
    }

    /// Whether `prefix` is an ancestor of this path, or equal to it.
    pub fn starts_with(&self, prefix: &DirPath) -> (r: bool)
        ensures
            r == is_prefix(prefix@, self@),
    {
        let plen = prefix.components.len();
        if plen > self.components.len() {
            proof {
                assert(prefix@.len() == plen);
                assert(self@.len() == self.components.len());
            }
            return false;
        }
        let mut i: usize = 0;
        while i < plen
            invariant
                i <= plen,
                plen == prefix.components.len(),
                plen <= self.components.len(),
                forall|j: int| 0 <= j < i ==> prefix@[j] == self@[j],
            decreases plen - i,
        {
            if !(prefix.components[i] == self.components[i]) {
                proof {
                    assert(prefix@[i as int] == prefix.components@[i as int]@);
                    assert(self@[i as int] == self.components@[i as int]@);
                    if is_prefix(prefix@, self@) {
                        lemma_prefix_index(prefix@, self@);
                    }
                }
                return false;
            }
            i = i + 1;
        }
        proof {
            lemma_prefix_from_index(prefix@, self@);
        }
        true
    }

    /// Whether this path comes strictly before `other` in the lexicographic
    /// path order.
    pub fn before(&self, other: &DirPath) -> (r: bool)
        ensures
            r == path_lt(self@, other@),
    {
        let alen = self.components.len();
        let blen = other.components.len();
        let mut i: usize = 0;
        loop
            invariant
                i <= alen,
                i <= blen,
                alen == self.components.len(),
                blen == other.components.len(),
                forall|j: int| 0 <= j < i ==> self@[j] == other@[j],
            decreases alen - i,
        {
            if i == alen || i == blen {
                proof {
                    lemma_agree_len_is(self@, other@, i as int);
                }
                return alen < blen;
            }
            if !(self.components[i] == other.components[i]) {
                let r = str_lt(&self.components[i], &other.components[i]);
                proof {
                    lemma_agree_len_is(self@, other@, i as int);
                }
                return r;
            }
            i = i + 1;
        }
    }
}

/// Lexicographic comparison of two components, character by character.
fn str_lt(a: &String, b: &String) -> (r: bool)
    ensures
        r == chars_lt(a@, b@),
{
    let alen = a.as_str().unicode_len();
    let blen = b.as_str().unicode_len();
    let mut i: usize = 0;
    loop
        invariant
            i <= alen,
            i <= blen,
            alen == a@.len(),
            blen == b@.len(),
            forall|j: int| 0 <= j < i ==> a@[j] == b@[j],
        decreases alen - i,
    {
        if i == alen || i == blen {
            proof {
                lemma_agree_len_is(a@, b@, i as int);
            }
            return alen < blen;
        }
        let ca = a.as_str().get_char(i);
        let cb = b.as_str().get_char(i);
        if ca != cb {
            proof {
                lemma_agree_len_is(a@, b@, i as int);
            }
            return (ca as u32) < (cb as u32);
        }
        i = i + 1;
    }
}

impl PartialEq for DirPath {
    /// Structural equality: same components in the same order.
    fn eq(&self, other: &DirPath) -> (r: bool) {
        let n = self.components.len();
        if n != other.components.len() {
            proof {
                assert(self@.len() == n);
                assert(other@.len() == other.components.len());
            }
            return false;
        }
        let mut i: usize = 0;
        while i < n
            invariant
                i <= n,
                n == self.components.len(),
                n == other.components.len(),
                forall|j: int| 0 <= j < i ==> self@[j] == other@[j],
            decreases n - i,
        {
            if !(self.components[i] == other.components[i]) {
                proof {
                    assert(self@[i as int] == self.components@[i as int]@);
                    assert(other@[i as int] == other.components@[i as int]@);
                }
                return false;
            }
            i = i + 1;
        }
        proof {
            assert(self@ =~= other@);
        }
        true
    }
}

impl vstd::std_specs::cmp::PartialEqSpecImpl for DirPath {
    open spec fn obeys_eq_spec() -> bool {
        true
    }

    open spec fn eq_spec(&self, other: &DirPath) -> bool {
        self@ == other@
    }
}



/// The first separator position at or after `i`, or the string's end when
/// the rest of the string holds none.
pub open spec fn comp_end(s: Seq<char>, i: int) -> int
    decreases s.len() - i,
{
    if i < 0 || i >= s.len() || s[i] == '/' {
        i
    } else {
        comp_end(s, i + 1)
    }
}

/// What `comp_end` says: no separator sits in between, and one sits at the
/// result unless the string ends there.
pub proof fn lemma_comp_end(s: Seq<char>, i: int)
    requires
        0 <= i <= s.len(),
    ensures
        i <= comp_end(s, i) <= s.len(),
        forall|j: int| i <= j < comp_end(s, i) ==> s[j] != '/',
        comp_end(s, i) < s.len() ==> s[comp_end(s, i)] == '/',
    decreases s.len() - i,
{
    if i < s.len() && s[i] != '/' {
        lemma_comp_end(s, i + 1);
    }
}

/// Any index with the first-separator properties is `comp_end`.
pub proof fn lemma_comp_end_is(s: Seq<char>, i: int, m: int)
    requires
        0 <= i <= m <= s.len(),
        forall|j: int| i <= j < m ==> s[j] != '/',
        m < s.len() ==> s[m] == '/',
    ensures
        comp_end(s, i) == m,
{
    lemma_comp_end(s, i);
    let g = comp_end(s, i);
    if g < m {
        assert(s[g] != '/');
    }
    if m < g {
        assert(s[m] != '/');
    }
}

/// The components of a path string: the maximal nonempty runs of characters
/// between `/` separators. `"/hello/world"` has components `hello`, `world`;
/// `""` and `"/"` both have none. The inner bounds check only keeps the
/// recursion well-founded; `lemma_comp_end` shows it always passes.
pub open spec fn parse_spec(s: Seq<char>) -> Seq<Seq<char>>
    decreases s.len(),
{
    if s.len() <= 0 {
        Seq::empty()
    } else if s[0] == '/' {
        parse_spec(s.skip(1))
    } else {
        let ce = comp_end(s, 0);
        if 1 <= ce <= s.len() {
            seq![s.subrange(0, ce)] + parse_spec(s.skip(ce))
        } else {
            Seq::empty()
        }
    }
}

/// The display form of a path: `/`-separated components with a leading
/// separator; the bare root renders as `/`.
pub open spec fn render_spec(p: Seq<Seq<char>>) -> Seq<char>
    decreases p.len(),
{
    if p.len() == 0 {
        seq!['/']
    } else if p.len() == 1 {
        seq!['/'] + p[0]
    } else {
        render_spec(p.drop_last()) + seq!['/'] + p.last()
    }
}

impl DirPath {
    /// Builds the path whose components are the maximal nonempty runs of
    /// non-`/` characters of `s`.
    pub fn parse(s: &str) -> (r: DirPath)
        ensures
            r@ == parse_spec(s@),
    {
        let len = s.unicode_len();
        let mut comps: Vec<String> = Vec::new();
        let mut i: usize = 0;
        proof {
            assert(s@.skip(0) =~= s@);
            assert(comps@.map_values(|c: String| c@) + parse_spec(s@.skip(0)) =~= parse_spec(
                s@,
            ));
        }
        while i < len
            invariant
                i <= len,
                len == s@.len(),
                parse_spec(s@) == comps@.map_values(|c: String| c@) + parse_spec(
                    s@.skip(i as int),
                ),
            decreases len - i,
        {
            if s.get_char(i) == '/' {
                proof {
                    assert(s@.skip(i as int).skip(1) =~= s@.skip(i as int + 1));
                }
                i = i + 1;
            } else {
                let mut j = i + 1;
                loop
                    invariant
                        i < j <= len,
                        len == s@.len(),
                        forall|k: int| i <= k < j ==> s@[k] != '/',
                    ensures
                        i < j <= len,
                        forall|k: int| i <= k < j ==> s@[k] != '/',
                        j == len || s@[j as int] == '/',
                    decreases len - j,
                {
                    if j == len {
                        break ;
                    }
                    if s.get_char(j) == '/' {
                        break ;
                    }
                    j = j + 1;
                }
                let comp = s.substring_char(i, j).to_owned();
                proof {
                    let t = s@.skip(i as int);
                    lemma_comp_end_is(t, 0, j - i);
                    assert(t.subrange(0, j - i) =~= s@.subrange(i as int, j as int));
                    assert(t.skip(j - i) =~= s@.skip(j as int));
                    assert(comps@.push(comp).map_values(|c: String| c@) =~= comps@.map_values(
                        |c: String| c@,
                    ).push(comp@));
                    assert(comps@.map_values(|c: String| c@).push(comp@) + parse_spec(
                        s@.skip(j as int),
                    ) =~= comps@.map_values(|c: String| c@) + (seq![s@.subrange(
                        i as int,
                        j as int,
                    )] + parse_spec(s@.skip(j as int))));
                }
                comps.push(comp);
                i = j;
            }
        }
        proof {
            assert(s@.skip(len as int) =~= Seq::<char>::empty());
            assert(comps@.map_values(|c: String| c@) + parse_spec(s@.skip(len as int))
                =~= comps@.map_values(|c: String| c@));
        }
        DirPath { components: comps }
    }

    /// The path as one displayable string.
    pub fn to_display_string(&self) -> (r: String)
        ensures
            r@ == render_spec(self@),
    {
        let n = self.components.len();
        if n == 0 {
            let r = "/".to_owned();
            proof {
                reveal_strlit("/");
                assert(r@ =~= render_spec(self@));
            }
            return r;
        }
        let mut out = String::new();
        let mut i: usize = 0;
        while i < n
            invariant
                i <= n,
                n == self.components.len(),
                i > 0 ==> out@ == render_spec(self@.subrange(0, i as int)),
                i == 0 ==> out@ == Seq::<char>::empty(),
            decreases n - i,
        {
            out.append("/");
            out.append(self.components[i].as_str());
            proof {
                reveal_strlit("/");
                assert(self@[i as int] == self.components@[i as int]@);
                if i == 0 {
                    assert(out@ =~= render_spec(self@.subrange(0, 1)));
                } else {
                    assert(self@.subrange(0, i as int + 1).drop_last() =~= self@.subrange(
                        0,
                        i as int,
                    ));
                    assert(self@.subrange(0, i as int + 1).last() == self@[i as int]);
                    assert(out@ =~= render_spec(self@.subrange(0, i as int + 1)));
                }
            }
            i = i + 1;
        }
        proof {
            assert(self@.subrange(0, n as int) =~= self@);
        }
        out
    }
}


/// A well-formed path: every component is nonempty and holds no separator.
/// `parse` only ever builds such paths.
pub open spec fn well_formed(p: Seq<Seq<char>>) -> bool {
    &&& forall|i: int| 0 <= i < p.len() ==> (#[trigger] p[i]).len() > 0
    &&& forall|i: int, j: int| 0 <= i < p.len() && 0 <= j < p[i].len() ==> #[trigger] p[i][j] != '/'
}

/// Whatever parsing builds is well formed.
pub proof fn lemma_parse_well_formed(s: Seq<char>)
    ensures
        well_formed(parse_spec(s)),
    decreases s.len(),
{
    if s.len() == 0 {
    } else if s[0] == '/' {
        lemma_parse_well_formed(s.skip(1));
    } else {
        lemma_comp_end(s, 0);
        let ce = comp_end(s, 0);
        lemma_parse_well_formed(s.skip(ce));
        let rest = parse_spec(s.skip(ce));
        let whole = parse_spec(s);
        assert(whole == seq![s.subrange(0, ce)] + rest);
        assert forall|i: int| 0 <= i < whole.len() implies (#[trigger] whole[i]).len() > 0 by {
            if i > 0 {
                assert(whole[i] == rest[i - 1]);
            }
        }
        assert forall|i: int, j: int|
            0 <= i < whole.len() && 0 <= j < whole[i].len() implies #[trigger] whole[i][j]
                != '/' by {
            if i > 0 {
                assert(whole[i] == rest[i - 1]);
            }
        }
    }
}

/// Appending a separator and one clean component to any path string adds
/// exactly that component to the parse.
pub proof fn lemma_parse_append(x: Seq<char>, c: Seq<char>)
    requires
        c.len() > 0,
        forall|j: int| 0 <= j < c.len() ==> c[j] != '/',
    ensures
        parse_spec(x + (seq!['/'] + c)) == parse_spec(x).push(c),
    decreases x.len(),
{
    let t = seq!['/'] + c;
    let w = x + t;
    assert(t[0] == '/');
    if x.len() == 0 {
        assert(w =~= t);
        assert(w[0] == '/');
        assert(w.skip(1) =~= c);
        lemma_comp_end_is(c, 0, c.len() as int);
        assert(c.subrange(0, c.len() as int) =~= c);
        assert(c.skip(c.len() as int) =~= Seq::<char>::empty());
        assert(parse_spec(Seq::<char>::empty()) =~= Seq::<Seq<char>>::empty());
        assert(parse_spec(c) =~= seq![c]);
        assert(parse_spec(x) =~= Seq::<Seq<char>>::empty());
        assert(parse_spec(w) =~= parse_spec(x).push(c));
    } else if x[0] == '/' {
        assert(w[0] == '/');
        assert(w.skip(1) =~= x.skip(1) + (seq!['/'] + c));
        lemma_parse_append(x.skip(1), c);
        assert(parse_spec(w) == parse_spec(x).push(c));
    } else {
        let ce = comp_end(x, 0);
        lemma_comp_end(x, 0);
        if ce < x.len() {
            // the first component closes inside `x`
            assert(x[ce] == '/');
            assert forall|j: int| 0 <= j < ce implies w[j] != '/' by {
                assert(w[j] == x[j]);
            }
            assert(w[ce] == x[ce]);
            lemma_comp_end_is(w, 0, ce);
            assert(w.subrange(0, ce) =~= x.subrange(0, ce));
            assert(w.skip(ce) =~= x.skip(ce) + (seq!['/'] + c));
            lemma_parse_append(x.skip(ce), c);
            assert(parse_spec(w) =~= parse_spec(x).push(c));
        } else {
            // no separator inside `x`: its single component ends at the
            // appended slash
            assert forall|j: int| 0 <= j < x.len() implies w[j] != '/' by {
                assert(w[j] == x[j]);
            }
            assert(w[x.len() as int] == t[0]);
            lemma_comp_end_is(w, 0, x.len() as int);
            assert(w.subrange(0, x.len() as int) =~= x);
            assert(w.skip(x.len() as int) =~= t);
            assert(t.skip(1) =~= c);
            lemma_comp_end_is(c, 0, c.len() as int);
            assert(c.subrange(0, c.len() as int) =~= c);
            assert(c.skip(c.len() as int) =~= Seq::<char>::empty());
            assert(parse_spec(Seq::<char>::empty()) =~= Seq::<Seq<char>>::empty());
            assert(parse_spec(c) =~= seq![c]);
            assert(parse_spec(t) =~= seq![c]);
            assert(x.subrange(0, x.len() as int) =~= x);
            assert(x.skip(x.len() as int) =~= Seq::<char>::empty());
            assert(parse_spec(x) =~= seq![x]);
            assert(parse_spec(w) =~= parse_spec(x).push(c));
        }
    }
}

/// Rendering then parsing gives a well-formed path back: its display string
/// determines it.
pub proof fn lemma_render_parse_round_trip(p: Seq<Seq<char>>)
    requires
        well_formed(p),
    ensures
        parse_spec(render_spec(p)) == p,
    decreases p.len(),
{
    if p.len() == 0 {
        assert(render_spec(p) == seq!['/']);
        assert(seq!['/'].skip(1) =~= Seq::<char>::empty());
        assert(parse_spec(Seq::<char>::empty()) =~= Seq::<Seq<char>>::empty());
        assert(parse_spec(render_spec(p)) =~= p);
    } else if p.len() == 1 {
        assert(render_spec(p) =~= Seq::<char>::empty() + (seq!['/'] + p[0]));
        assert forall|j: int| 0 <= j < p[0].len() implies p[0][j] != '/' by {
            assert(p[0][j] != '/');
        }
        lemma_parse_append(Seq::<char>::empty(), p[0]);
        assert(parse_spec(Seq::<char>::empty()) =~= Seq::<Seq<char>>::empty());
        assert(parse_spec(render_spec(p)) =~= p);
    } else {
        let q = p.drop_last();
        assert forall|i: int| 0 <= i < q.len() implies (#[trigger] q[i]).len() > 0 by {
            assert(q[i] == p[i]);
        }
        assert forall|i: int, j: int|
            0 <= i < q.len() && 0 <= j < q[i].len() implies #[trigger] q[i][j] != '/' by {
            assert(q[i] == p[i]);
        }
        lemma_render_parse_round_trip(q);
        assert forall|j: int| 0 <= j < p.last().len() implies p.last()[j] != '/' by {
            assert(p[p.len() - 1][j] != '/');
        }
        lemma_parse_append(render_spec(q), p.last());
        assert(render_spec(p) =~= render_spec(q) + (seq!['/'] + p.last()));
        assert(parse_spec(render_spec(p)) =~= p);
    }
}

/// Two different well-formed paths render to two different display strings.
pub proof fn lemma_render_injective(p: Seq<Seq<char>>, q: Seq<Seq<char>>)
    requires
        well_formed(p),
        well_formed(q),
        p != q,
    ensures
        render_spec(p) != render_spec(q),
{
    lemma_render_parse_round_trip(p);
    lemma_render_parse_round_trip(q);
}

} // verus!


