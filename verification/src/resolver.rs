//! The common-ancestor resolver: filters candidate paths by a root filter,
//! computes their deepest shared ancestor, truncates every contributing
//! candidate back to a direct child of it, and returns the deduplicated
//! display paths in ascending path order.

use vstd::prelude::*;

use crate::paths::DirPath;
use crate::paths::agree_len;
use crate::paths::ellipsis_seq;
use crate::paths::is_prefix;
use crate::paths::lemma_agree_len;
use crate::paths::lemma_agree_len_is;
use crate::paths::lemma_prefix_chain;
use crate::paths::lemma_prefix_from_index;
use crate::paths::lemma_prefix_index;
use crate::paths::lemma_prefix_refl;
use crate::paths::lemma_path_lt_trans;
use crate::paths::lemma_path_lt_trichotomy;
use crate::paths::lemma_prefix_trans;
use crate::paths::parse_spec;
use crate::paths::render_spec;
use crate::paths::path_lt;
use crate::shrink::ShrinkPath;
use crate::shrink::materialized;

verus! {

/// The longest common prefix of two paths.
pub open spec fn lcp(a: Seq<Seq<char>>, b: Seq<Seq<char>>) -> Seq<Seq<char>> {
    a.subrange(0, agree_len(a, b))
}

/// The longest common prefix is a prefix of both paths.
pub proof fn lemma_lcp(a: Seq<Seq<char>>, b: Seq<Seq<char>>)
    ensures
        is_prefix(lcp(a, b), a),
        is_prefix(lcp(a, b), b),
{
    lemma_agree_len(a, b);
    lemma_prefix_from_index(lcp(a, b), a);
    lemma_prefix_from_index(lcp(a, b), b);
}

/// Any common prefix of two paths is a prefix of their longest common
/// prefix: it is the deepest shared ancestor.
pub proof fn lemma_lcp_greatest(p: Seq<Seq<char>>, a: Seq<Seq<char>>, b: Seq<Seq<char>>)
    requires
        is_prefix(p, a),
        is_prefix(p, b),
    ensures
        is_prefix(p, lcp(a, b)),
{
    lemma_agree_len(a, b);
    lemma_lcp(a, b);
    lemma_prefix_index(p, a);
    lemma_prefix_index(p, b);
    let m = agree_len(a, b);
    if p.len() > m {
        assert(a[m] == b[m]);
    }
    lemma_prefix_chain(p, lcp(a, b), a);
}

/// Mutual prefixes are equal.
pub proof fn lemma_prefix_antisym<A>(p: Seq<A>, q: Seq<A>)
    requires
        is_prefix(p, q),
        is_prefix(q, p),
    ensures
        p == q,
{
    lemma_prefix_index(p, q);
    assert(p =~= q);
}

/// A prefix of equal length is the sequence itself.
pub proof fn lemma_prefix_full<A>(p: Seq<A>, a: Seq<A>)
    requires
        is_prefix(p, a),
        p.len() == a.len(),
    ensures
        p == a,
{
    lemma_prefix_refl(a);
    lemma_prefix_chain(a, p, a);
    lemma_prefix_antisym(p, a);
}

/// A strict prefix stays a prefix after the last element is dropped.
pub proof fn lemma_prefix_drop_last<A>(p: Seq<A>, a: Seq<A>)
    requires
        is_prefix(p, a),
        p.len() < a.len(),
    ensures
        is_prefix(p, a.drop_last()),
{
    lemma_prefix_index(p, a);
    lemma_prefix_from_index(p, a.drop_last());
}

/// The common ancestor accumulated over the first `n` accepted candidates:
/// the first candidate itself, then the longest common prefix with each
/// following one.
pub open spec fn run_common(cs: Seq<Seq<Seq<char>>>, n: int) -> Seq<Seq<char>>
    decreases n,
{
    if n <= 1 {
        cs[0]
    } else {
        lcp(run_common(cs, n - 1), cs[n - 1])
    }
}

/// The deepest shared ancestor of the whole accepted candidate list.
pub open spec fn common_of(cs: Seq<Seq<Seq<char>>>) -> Seq<Seq<char>> {
    run_common(cs, cs.len() as int)
}

/// The accumulated common ancestor is an ancestor-or-equal of every
/// candidate it has seen.
pub proof fn lemma_run_common_prefix(cs: Seq<Seq<Seq<char>>>, n: int)
    requires
        1 <= n <= cs.len(),
    ensures
        forall|i: int| 0 <= i < n ==> is_prefix(run_common(cs, n), #[trigger] cs[i]),
    decreases n,
{
    if n == 1 {
        lemma_prefix_refl(cs[0]);
    } else {
        lemma_run_common_prefix(cs, n - 1);
        lemma_lcp(run_common(cs, n - 1), cs[n - 1]);
        assert forall|i: int| 0 <= i < n implies is_prefix(run_common(cs, n), cs[i]) by {
            if i < n - 1 {
                lemma_prefix_trans(run_common(cs, n), run_common(cs, n - 1), cs[i]);
            }
        }
    }
}

/// Any shared ancestor of the candidates seen so far is an ancestor of the
/// accumulated common ancestor.
pub proof fn lemma_run_common_greatest(cs: Seq<Seq<Seq<char>>>, n: int, p: Seq<Seq<char>>)
    requires
        1 <= n <= cs.len(),
        forall|i: int| 0 <= i < n ==> is_prefix(p, #[trigger] cs[i]),
    ensures
        is_prefix(p, run_common(cs, n)),
    decreases n,
{
    if n == 1 {
        assert(is_prefix(p, cs[0]));
    } else {
        lemma_run_common_greatest(cs, n - 1, p);
        lemma_lcp_greatest(p, run_common(cs, n - 1), cs[n - 1]);
    }
}

/// Whether accepted candidate `i` contributes an entry of its own: the
/// first one always does; a later one is skipped iff it is itself an
/// ancestor-or-equal of the common ancestor of its predecessors.
pub open spec fn contributes(cs: Seq<Seq<Seq<char>>>, i: int) -> bool {
    i == 0 || !is_prefix(cs[i], run_common(cs, i))
}

/// The candidates among the first `n` that contribute, in input order.
pub open spec fn contributors(cs: Seq<Seq<Seq<char>>>, n: int) -> Seq<Seq<Seq<char>>>
    decreases n,
{
    if n <= 0 {
        Seq::empty()
    } else if contributes(cs, n - 1) {
        contributors(cs, n - 1).push(cs[n - 1])
    } else {
        contributors(cs, n - 1)
    }
}

/// `v` is the value of some contributing candidate among the first `n`.
pub open spec fn from_contributor(cs: Seq<Seq<Seq<char>>>, n: int, v: Seq<Seq<char>>) -> bool {
    exists|i: int| 0 <= i < n && #[trigger] contributes(cs, i) && cs[i] == v
}

/// The contributor list holds exactly the values of the contributing
/// candidates.
pub proof fn lemma_contributors_members(cs: Seq<Seq<Seq<char>>>, n: int)
    requires
        0 <= n <= cs.len(),
    ensures
        forall|t: int|
            0 <= t < contributors(cs, n).len() ==> from_contributor(
                cs,
                n,
                #[trigger] contributors(cs, n)[t],
            ),
        forall|i: int|
            0 <= i < n && #[trigger] contributes(cs, i) ==> contributors(cs, n).contains(cs[i]),
    decreases n,
{
    if n > 0 {
        lemma_contributors_members(cs, n - 1);
        let prev = contributors(cs, n - 1);
        let cur = contributors(cs, n);
        assert forall|t: int| 0 <= t < cur.len() implies from_contributor(
            cs,
            n,
            #[trigger] cur[t],
        ) by {
            if t < prev.len() {
                assert(cur[t] == prev[t]);
                assert(from_contributor(cs, n - 1, prev[t]));
                let i = choose|i: int|
                    0 <= i < n - 1 && #[trigger] contributes(cs, i) && cs[i] == prev[t];
                assert(0 <= i < n && contributes(cs, i) && cs[i] == cur[t]);
            } else {
                assert(contributes(cs, n - 1) && cs[n - 1] == cur[t]);
            }
        }
        assert forall|i: int|
            0 <= i < n && #[trigger] contributes(cs, i) implies cur.contains(cs[i]) by {
            if i < n - 1 {
                assert(prev.contains(cs[i]));
                let t = choose|t: int| 0 <= t < prev.len() && prev[t] == cs[i];
                assert(cur[t] == cs[i]);
            } else {
                assert(cur[cur.len() - 1] == cs[i]);
            }
        }
    }
}

/// Every accepted candidate starts with the root filter.
pub proof fn lemma_accepted_members(cands: Seq<Seq<Seq<char>>>, root: Seq<Seq<char>>)
    ensures
        forall|t: int|
            0 <= t < accepted_of(cands, root).len() ==> is_prefix(
                root,
                #[trigger] accepted_of(cands, root)[t],
            ),
    decreases cands.len(),
{
    if cands.len() > 0 {
        lemma_accepted_members(cands.drop_last(), root);
        let prev = accepted_of(cands.drop_last(), root);
        assert forall|t: int| 0 <= t < accepted_of(cands, root).len() implies is_prefix(
            root,
            #[trigger] accepted_of(cands, root)[t],
        ) by {
            if t < prev.len() {
                assert(accepted_of(cands, root)[t] == prev[t]);
            }
        }
    }
}

/// Every accepted candidate is one of the original candidates.
pub proof fn lemma_accepted_from(cands: Seq<Seq<Seq<char>>>, root: Seq<Seq<char>>)
    ensures
        forall|t: int|
            0 <= t < accepted_of(cands, root).len() ==> cands.contains(
                #[trigger] accepted_of(cands, root)[t],
            ),
    decreases cands.len(),
{
    if cands.len() > 0 {
        lemma_accepted_from(cands.drop_last(), root);
        let prev = accepted_of(cands.drop_last(), root);
        assert forall|t: int| 0 <= t < accepted_of(cands, root).len() implies cands.contains(
            #[trigger] accepted_of(cands, root)[t],
        ) by {
            if t < prev.len() {
                assert(accepted_of(cands, root)[t] == prev[t]);
                assert(cands.drop_last().contains(prev[t]));
                let w = choose|w: int|
                    0 <= w < cands.drop_last().len() && cands.drop_last()[w] == prev[t];
                assert(cands[w] == prev[t]);
            } else {
                assert(accepted_of(cands, root)[t] == cands[cands.len() - 1]);
            }
        }
    }
}

/// A list whose members all start with the root filter passes it whole.
pub proof fn lemma_accepted_all(s: Seq<Seq<Seq<char>>>, root: Seq<Seq<char>>)
    requires
        forall|i: int| 0 <= i < s.len() ==> is_prefix(root, #[trigger] s[i]),
    ensures
        accepted_of(s, root) == s,
    decreases s.len(),
{
    if s.len() == 0 {
        assert(accepted_of(s, root) =~= s);
    } else {
        assert forall|i: int| 0 <= i < s.drop_last().len() implies is_prefix(
            root,
            #[trigger] s.drop_last()[i],
        ) by {
            assert(s.drop_last()[i] == s[i]);
        }
        lemma_accepted_all(s.drop_last(), root);
        assert(accepted_of(s, root) =~= s);
    }
}

/// The accumulated common ancestor of a constant list is its value.
pub proof fn lemma_run_common_const(cs: Seq<Seq<Seq<char>>>, n: int, v: Seq<Seq<char>>)
    requires
        1 <= n <= cs.len(),
        forall|i: int| 0 <= i < n ==> #[trigger] cs[i] == v,
    ensures
        run_common(cs, n) == v,
    decreases n,
{
    if n > 1 {
        lemma_run_common_const(cs, n - 1, v);
        lemma_agree_len_is(v, v, v.len() as int);
        assert(lcp(v, v) =~= v);
    }
}

/// The display path of one contributing candidate `c` below the final
/// common ancestor `k`: the ancestor itself when the candidate equals it; a
/// direct child kept whole; a deeper candidate cut back to its direct-child
/// prefix, with a trailing ellipsis marking the elided levels.
pub open spec fn disp(c: Seq<Seq<char>>, k: Seq<Seq<char>>) -> Seq<Seq<char>> {
    if c.len() <= k.len() {
        k
    } else if c.len() == k.len() + 1 {
        c
    } else {
        k.push(c[k.len() as int]).push(ellipsis_seq())
    }
}

/// Whether `p` is one of the display paths of the accepted candidate list
/// `cs`.
pub open spec fn in_display(cs: Seq<Seq<Seq<char>>>, p: Seq<Seq<char>>) -> bool {
    exists|i: int|
        0 <= i < cs.len() && #[trigger] contributes(cs, i) && disp(cs[i], common_of(cs)) == p
}

/// The candidates that pass the root filter, in input order.
pub open spec fn accepted_of(
    cands: Seq<Seq<Seq<char>>>,
    root: Seq<Seq<char>>,
) -> Seq<Seq<Seq<char>>>
    decreases cands.len(),
{
    if cands.len() == 0 {
        Seq::empty()
    } else {
        let rest = accepted_of(cands.drop_last(), root);
        if is_prefix(root, cands.last()) {
            rest.push(cands.last())
        } else {
            rest
        }
    }
}

/// The views of a list of paths.
pub open spec fn views_of(s: Seq<DirPath>) -> Seq<Seq<Seq<char>>> {
    s.map_values(|d: DirPath| d@)
}

/// Strictly ascending in the path order; in particular no entry repeats.
pub open spec fn strictly_sorted(s: Seq<Seq<Seq<char>>>) -> bool {
    forall|i: int, j: int| 0 <= i < j < s.len() ==> path_lt(s[i], s[j])
}

/// Everything the resolver promises of its output `out` for candidate views
/// `cands` and root filter `root`: the output is strictly sorted, empty when
/// nothing passes the filter, and otherwise holds exactly the display paths
/// of the accepted candidates.
pub open spec fn resolver_post(
    cands: Seq<Seq<Seq<char>>>,
    root: Seq<Seq<char>>,
    out: Seq<Seq<Seq<char>>>,
) -> bool {
    let acc = accepted_of(cands, root);
    &&& strictly_sorted(out)
    &&& (acc.len() == 0 ==> out.len() == 0)
    &&& (acc.len() > 0 ==> forall|p: Seq<Seq<char>>|
        #[trigger] out.contains(p) <==> in_display(acc, p))
}


/// The phase-one relation between one working entry `e`, the candidate `c`
/// it stands for, and the current common ancestor `k`.
spec fn entry_ok(e: (Seq<Seq<char>>, bool), c: Seq<Seq<char>>, k: Seq<Seq<char>>) -> bool {
    &&& is_prefix(k, e.0)
    &&& is_prefix(e.0, c)
    &&& (e.1 <==> e.0 != c)
    &&& (e.0.len() > k.len() || (e.0 == c && !e.1))
}

/// `p` is the display path of one of the first `hi` registered candidates.
spec fn disp_upto(g: Seq<Seq<Seq<char>>>, k: Seq<Seq<char>>, hi: int, p: Seq<Seq<char>>) -> bool {
    exists|t: int| 0 <= t < hi && #[trigger] disp(g[t], k) == p
}

/// Keeps the candidates that start with the root filter, in input order.
#[verifier::loop_isolation(false)]
fn filter_candidates(cands: &Vec<DirPath>, root: &DirPath) -> (acc: Vec<DirPath>)
    ensures
        views_of(acc@) == accepted_of(views_of(cands@), root@),
{
    let mut acc: Vec<DirPath> = Vec::new();
    let n = cands.len();
    let mut i: usize = 0;
    proof {
        assert(views_of(cands@).take(0) =~= Seq::<Seq<Seq<char>>>::empty());
        assert(views_of(acc@) =~= accepted_of(views_of(cands@).take(0), root@));
    }
    while i < n
        invariant
            i <= n,
            views_of(acc@) == accepted_of(views_of(cands@).take(i as int), root@),
        decreases n - i,
    {
        proof {
            assert(views_of(cands@).take(i as int + 1).drop_last() =~= views_of(cands@).take(
                i as int,
            ));
            assert(views_of(cands@).take(i as int + 1).last() == cands@[i as int]@);
        }
        if cands[i].starts_with(root) {
            let d = cands[i].duplicate();
            proof {
                assert(views_of(acc@.push(d)) =~= views_of(acc@).push(d@));
            }
            acc.push(d);
        }
        i = i + 1;
    }
    proof {
        assert(views_of(cands@).take(n as int) =~= views_of(cands@));
    }
    acc
}

/// Inserts one display path into the sorted, key-unique output, keeping the
/// order and dropping the value when it is already present.
#[verifier::loop_isolation(false)]
fn insert_sorted(v: &mut Vec<DirPath>, x: DirPath)
    requires
        strictly_sorted(views_of(old(v)@)),
    ensures
        strictly_sorted(views_of(final(v)@)),
        forall|p: Seq<Seq<char>>|
            #[trigger] views_of(final(v)@).contains(p) <==> (views_of(old(v)@).contains(p) || p
                == x@),
{
    let n = v.len();
    let mut idx: usize = 0;
    #[verifier::loop_isolation(true)]
    loop
        invariant
            idx <= n,
            n == v@.len(),
            forall|j: int| 0 <= j < idx ==> path_lt(#[trigger] views_of(v@)[j], x@),
        ensures
            idx <= n,
            forall|j: int| 0 <= j < idx ==> path_lt(#[trigger] views_of(v@)[j], x@),
            idx < n ==> !path_lt(views_of(v@)[idx as int], x@),
        decreases n - idx,
    {
        if idx == n {
            break ;
        }
        if !v[idx].before(&x) {
            proof {
                assert(views_of(v@)[idx as int] == v@[idx as int]@);
            }
            break ;
        }
        proof {
            assert(views_of(v@)[idx as int] == v@[idx as int]@);
        }
        idx = idx + 1;
    }
    if idx < n {
        if v[idx] == x {
            proof {
                assert(views_of(v@)[idx as int] == v@[idx as int]@);
                assert(views_of(v@).contains(x@));
            }
            return ;
        }
    }
    let ghost ov = views_of(v@);
    proof {
        if idx < n {
            assert(ov[idx as int] == v@[idx as int]@);
            assert(ov[idx as int] != x@);
        }
    }
    v.insert(idx, x);
    proof {
        let nv = views_of(v@);
        assert(nv.len() == ov.len() + 1);
        assert forall|j: int| 0 <= j < nv.len() implies nv[j] == (if j < idx {
            ov[j]
        } else if j == idx {
            x@
        } else {
            ov[j - 1]
        }) by {
            if j < idx {
                assert(v@[j] == old(v)@[j]);
            } else if j == idx {
                assert(v@[j] == x);
            } else {
                assert(v@[j] == old(v)@[j - 1]);
            }
        }
        if idx < n {
            lemma_path_lt_trichotomy(x@, ov[idx as int]);
            assert(path_lt(x@, ov[idx as int]));
        }
        assert forall|a: int, b: int| 0 <= a < b < nv.len() implies path_lt(nv[a], nv[b]) by {
            if b < idx {
                assert(path_lt(ov[a], ov[b]));
            } else if b == idx {
                assert(path_lt(ov[a], x@));
            } else if a < idx {
                if a < b - 1 {
                    assert(path_lt(ov[a], ov[b - 1]));
                } else {
                    assert(path_lt(ov[a], x@));
                    assert(path_lt(x@, ov[idx as int]));
                    lemma_path_lt_trans(ov[a], x@, ov[b - 1]);
                }
            } else if a == idx {
                if b - 1 == idx {
                    assert(path_lt(x@, ov[idx as int]));
                } else {
                    assert(path_lt(ov[idx as int], ov[b - 1]));
                    lemma_path_lt_trans(x@, ov[idx as int], ov[b - 1]);
                }
            } else {
                assert(path_lt(ov[a - 1], ov[b - 1]));
            }
        }
        assert forall|p: Seq<Seq<char>>| #[trigger] views_of(v@).contains(p) implies (
        ov.contains(p) || p == x@) by {
            let j = choose|j: int| 0 <= j < nv.len() && nv[j] == p;
            if j < idx {
                assert(ov[j] == p);
            } else if j > idx {
                assert(ov[j - 1] == p);
            }
        }
        assert forall|p: Seq<Seq<char>>| (ov.contains(p) || p == x@) implies #[trigger] views_of(
            v@,
        ).contains(p) by {
            if p == x@ {
                assert(nv[idx as int] == p);
            } else {
                let j = choose|j: int| 0 <= j < ov.len() && ov[j] == p;
                if j < idx {
                    assert(nv[j] == p);
                } else {
                    assert(nv[j + 1] == p);
                }
            }
        }
    }
}

/// Resolves a candidate path list against a folder-root filter: keeps the
/// candidates below the filter, finds their deepest common ancestor, walks
/// every contributing candidate back up to a direct child of it (a trailing
/// ellipsis component marks elided depth), and returns the deduplicated
/// display paths in ascending path order.
///
/// In this model every path descends from the root (the empty component
/// list), so a common ancestor always exists and the result is always
/// `Some`; the `Option` keeps the structural-failure channel of the
/// interface explicit for callers.
#[verifier::loop_isolation(false)]
pub fn search_as_folders(candidates: &Vec<DirPath>, f_root: &str) -> (r: Option<Vec<DirPath>>)
    ensures
        r is Some,
        resolver_post(views_of(candidates@), parse_spec(f_root@), views_of(r.unwrap()@)),
{
    let root = DirPath::parse(f_root);
    let acc = filter_candidates(candidates, &root);
    let ghost accv = views_of(acc@);
    let n = acc.len();
    if n == 0 {
        let out: Vec<DirPath> = Vec::new();
        proof {
            assert(views_of(out@) =~= Seq::<Seq<Seq<char>>>::empty());
        }
        return Some(out);
    }
    // Phase one: accumulate the common ancestor and one working entry per
    // contributing candidate.
    let mut common = acc[0].duplicate();
    let mut entries: Vec<ShrinkPath> = Vec::new();
    entries.push(ShrinkPath::new(acc[0].duplicate()));
    let ghost mut gcand: Seq<Seq<Seq<char>>> = seq![accv[0]];
    proof {
        assert(accv[0] == acc@[0]@);
        lemma_prefix_refl(accv[0]);
        assert(entry_ok(entries@[0]@, gcand[0], common@));
        assert(accv.len() == n);
        assert(contributors(accv, 0) =~= Seq::<Seq<Seq<char>>>::empty());
        assert(contributes(accv, 0));
        assert(contributors(accv, 1) =~= gcand);
    }
    let mut j: usize = 1;
    while j < n
        invariant
            1 <= j <= n,
            common@ == run_common(accv, j as int),
            entries@.len() == gcand.len(),
            forall|t: int|
                0 <= t < gcand.len() ==> #[trigger] entry_ok(entries@[t]@, gcand[t], common@),
            gcand == contributors(accv, j as int),
        decreases n - j,
    {
        let ghost c = accv[j as int];
        let ghost rc = common@;
        proof {
            assert(c == acc@[j as int]@);
            lemma_lcp(rc, c);
            lemma_prefix_refl(rc);
        }
        // Climb the common ancestor until it is an ancestor of this
        // candidate; it can fall at deepest to the shared longest common
        // prefix, never past it.
        #[verifier::loop_isolation(true)]
        loop
            invariant
                j < acc@.len(),
                c == acc@[j as int]@,
                is_prefix(lcp(rc, c), common@),
                is_prefix(common@, rc),
            ensures
                common@ == lcp(rc, c),
            decreases common@.len(),
        {
            if acc[j].starts_with(&common) {
                proof {
                    lemma_lcp(rc, c);
                    lemma_lcp_greatest(common@, rc, c);
                    lemma_prefix_antisym(lcp(rc, c), common@);
                }
                break ;
            }
            proof {
                lemma_lcp(rc, c);
                if lcp(rc, c) == common@ {
                    assert(is_prefix(common@, c));
                    assert(false);
                }
                if lcp(rc, c).len() == common@.len() {
                    lemma_prefix_full(lcp(rc, c), common@);
                }
                lemma_prefix_drop_last(lcp(rc, c), common@);
                lemma_prefix_from_index(common@.drop_last(), common@);
                lemma_prefix_trans(common@.drop_last(), common@, rc);
            }
            match common.parent() {
                Some(p2) => {
                    common = p2;
                },
                None => {
                    proof {
                        lemma_prefix_from_index(common@, c);
                        assert(false);
                    }
                    return None;
                },
            }
        }
        proof {
            lemma_lcp(rc, c);
            assert forall|t: int| 0 <= t < gcand.len() implies #[trigger] entry_ok(
                entries@[t]@,
                gcand[t],
                common@,
            ) by {
                assert(entry_ok(entries@[t]@, gcand[t], rc));
                lemma_prefix_trans(common@, rc, entries@[t]@.0);
            }
        }
        if !(acc[j] == common) {
            proof {
                if is_prefix(c, rc) {
                    lemma_prefix_refl(c);
                    lemma_lcp_greatest(c, rc, c);
                    lemma_prefix_antisym(c, lcp(rc, c));
                    assert(false);
                }
                assert(contributes(accv, j as int));
                lemma_prefix_refl(c);
                if common@.len() == c.len() {
                    lemma_prefix_full(common@, c);
                }
            }
            let mut e = ShrinkPath::new(acc[j].duplicate());
            while e.depth() > common.depth() + 1
                invariant
                    is_prefix(common@, e@.0),
                    is_prefix(e@.0, c),
                    e@.1 <==> e@.0 != c,
                    e@.0.len() > common@.len(),
                decreases e@.0.len(),
            {
                proof {
                    lemma_prefix_drop_last(common@, e@.0);
                    lemma_prefix_from_index(e@.0.drop_last(), e@.0);
                    lemma_prefix_trans(e@.0.drop_last(), e@.0, c);
                }
                e.ascend();
            }
            proof {
                assert(e@.0.len() == common@.len() + 1);
                assert(entry_ok(e@, c, common@));
            }
            entries.push(e);
            proof {
                gcand = gcand.push(c);
                assert(contributors(accv, j as int + 1) =~= gcand);
                assert forall|t: int| 0 <= t < gcand.len() implies #[trigger] entry_ok(
                    entries@[t]@,
                    gcand[t],
                    common@,
                ) by {
                    if t < gcand.len() - 1 {
                        assert(entries@[t] == entries@.drop_last()[t]);
                    }
                }
            }
        } else {
            proof {
                assert(c == common@);
                assert(is_prefix(c, rc));
                assert(!contributes(accv, j as int));
                assert(contributors(accv, j as int + 1) == contributors(accv, j as int));
            }
        }
        proof {
            assert(run_common(accv, j as int + 1) == lcp(
                run_common(accv, j as int),
                accv[j as int],
            ));
        }
        j = j + 1;
    }
    // Phase two: re-normalize every registered entry against the final
    // common ancestor and collect the materialized display paths, sorted
    // and deduplicated.
    let ghost k = common@;
    proof {
        assert(accv.len() == n);
        assert(k == common_of(accv));
    }
    let mut out: Vec<DirPath> = Vec::new();
    let mut m: usize = 0;
    proof {
        assert(views_of(out@) =~= Seq::<Seq<Seq<char>>>::empty());
    }
    let en = entries.len();
    while m < en
        invariant
            m <= en,
            common@ == k,
            strictly_sorted(views_of(out@)),
            forall|p: Seq<Seq<char>>|
                #[trigger] views_of(out@).contains(p) <==> disp_upto(gcand, k, m as int, p),
        decreases en - m,
    {
        let ghost c = gcand[m as int];
        let mut e = entries[m].duplicate();
        proof {
            assert(entry_ok(entries@[m as int]@, c, k));
        }
        let nm: DirPath = if e.path() == &common {
            proof {
                assert(e@.0 == k);
                assert(e@.0 == c && !e@.1);
                assert(materialized(e@) == c);
                assert(disp(c, k) == k);
            }
            e.materialize()
        } else {
            proof {
                if e@.0.len() == k.len() {
                    lemma_prefix_full(k, e@.0);
                }
                assert(e@.0.len() > k.len());
            }
            while e.depth() > common.depth() + 1
                invariant
                    common@ == k,
                    is_prefix(k, e@.0),
                    is_prefix(e@.0, c),
                    e@.1 <==> e@.0 != c,
                    e@.0.len() > k.len(),
                decreases e@.0.len(),
            {
                proof {
                    lemma_prefix_drop_last(k, e@.0);
                    lemma_prefix_from_index(e@.0.drop_last(), e@.0);
                    lemma_prefix_trans(e@.0.drop_last(), e@.0, c);
                }
                e.ascend();
            }
            let t = e.materialize();
            proof {
                assert(e@.0.len() == k.len() + 1);
                if c.len() == k.len() + 1 {
                    lemma_prefix_full(e@.0, c);
                    assert(t@ == disp(c, k));
                } else {
                    assert(c.len() > k.len() + 1);
                    assert(e@.0 != c);
                    lemma_prefix_index(k, e@.0);
                    lemma_prefix_index(e@.0, c);
                    assert(e@.0 =~= k.push(c[k.len() as int]));
                    assert(t@ == disp(c, k));
                }
            }
            t
        };
        proof {
            assert(nm@ == disp(c, k));
        }
        insert_sorted(&mut out, nm);
        proof {
            assert forall|p: Seq<Seq<char>>| #[trigger] views_of(out@).contains(p) implies
                disp_upto(gcand, k, m as int + 1, p) by {
                if p != nm@ {
                    let t = choose|t: int| 0 <= t < m && #[trigger] disp(gcand[t], k) == p;
                    assert(disp(gcand[t], k) == p);
                } else {
                    assert(disp(gcand[m as int], k) == p);
                }
            }
            assert forall|p: Seq<Seq<char>>| disp_upto(gcand, k, m as int + 1, p) implies
                #[trigger] views_of(out@).contains(p) by {
                let t = choose|t: int| 0 <= t < m + 1 && #[trigger] disp(gcand[t], k) == p;
                if t < m {
                    assert(disp_upto(gcand, k, m as int, p));
                }
            }
        }
        m = m + 1;
    }
    proof {
        lemma_contributors_members(accv, n as int);
        assert forall|p: Seq<Seq<char>>| #[trigger] views_of(out@).contains(p) implies in_display(
            accv,
            p,
        ) by {
            let t = choose|t: int| 0 <= t < gcand.len() && #[trigger] disp(gcand[t], k) == p;
            assert(contributors(accv, n as int)[t] == gcand[t]);
            assert(from_contributor(accv, n as int, gcand[t]));
            let i = choose|i: int|
                0 <= i < n && #[trigger] contributes(accv, i) && accv[i] == gcand[t];
            assert(0 <= i < accv.len() && contributes(accv, i) && disp(accv[i], common_of(accv))
                == p);
        }
        assert forall|p: Seq<Seq<char>>| in_display(accv, p) implies #[trigger] views_of(
            out@,
        ).contains(p) by {
            let i = choose|i: int|
                0 <= i < accv.len() && #[trigger] contributes(accv, i) && disp(
                    accv[i],
                    common_of(accv),
                ) == p;
            assert(contributors(accv, n as int).contains(accv[i]));
            let t = choose|t: int|
                0 <= t < contributors(accv, n as int).len() && contributors(accv, n as int)[t]
                    == accv[i];
            assert(gcand[t] == accv[i]);
            assert(disp_upto(gcand, k, gcand.len() as int, p));
        }
        assert(accepted_of(views_of(candidates@), root@) == accv);
        assert(resolver_post(views_of(candidates@), parse_spec(f_root@), views_of(out@)));
    }
    Some(out)
}


/// The resolver's output rows as display strings, in order, for the menu
/// rendering side.
#[verifier::loop_isolation(false)]
pub fn display_strings(out: &Vec<DirPath>) -> (r: Vec<String>)
    ensures
        r@.len() == out@.len(),
        forall|i: int| 0 <= i < out@.len() ==> (#[trigger] r@[i])@ == render_spec(out@[i]@),
{
    let mut r: Vec<String> = Vec::new();
    let n = out.len();
    let mut i: usize = 0;
    while i < n
        invariant
            i <= n,
            r@.len() == i,
            forall|j: int| 0 <= j < i ==> (#[trigger] r@[j])@ == render_spec(out@[j]@),
        decreases n - i,
    {
        r.push(out[i].to_display_string());
        i = i + 1;
    }
    r
}

} // verus!


