//! The resolver's cross-cutting guarantees, stated and proved over the same
//! spec functions its contracts use.

use vstd::prelude::*;

use crate::paths::ellipsis_seq;
use crate::paths::is_prefix;
use crate::paths::lemma_path_lt_trichotomy;
use crate::paths::lemma_prefix_from_index;
use crate::paths::lemma_prefix_index;
use crate::paths::lemma_prefix_trans;
use crate::paths::path_lt;
use crate::paths::lemma_prefix_path_lt;
use crate::paths::lemma_render_injective;
use crate::paths::render_spec;
use crate::paths::well_formed;
use crate::paths::lemma_prefix_refl;
use crate::resolver::accepted_of;
use crate::resolver::common_of;
use crate::resolver::contributes;
use crate::resolver::disp;
use crate::resolver::in_display;
use crate::resolver::lemma_accepted_all;
use crate::resolver::lemma_accepted_from;
use crate::resolver::lemma_accepted_members;
use crate::resolver::lemma_prefix_full;
use crate::resolver::lemma_run_common_const;
use crate::resolver::lemma_run_common_greatest;
use crate::resolver::lemma_run_common_prefix;
use crate::resolver::resolver_post;
use crate::resolver::run_common;
use crate::resolver::strictly_sorted;

verus! {

/// A display path with its trailing ellipsis, if any, removed.
pub open spec fn strip_ellipsis(p: Seq<Seq<char>>) -> Seq<Seq<char>> {
    if p.len() > 0 && p.last() == ellipsis_seq() {
        p.drop_last()
    } else {
        p
    }
}

/// Prefix law: every display path of a nonempty accepted candidate list,
/// with any trailing ellipsis stripped, is an ancestor-or-equal of at least
/// one accepted candidate.
pub proof fn lemma_prefix_law(cs: Seq<Seq<Seq<char>>>, p: Seq<Seq<char>>)
    requires
        cs.len() > 0,
        in_display(cs, p),
    ensures
        exists|i: int| 0 <= i < cs.len() && is_prefix(strip_ellipsis(p), #[trigger] cs[i]),
{
    let k = common_of(cs);
    let i = choose|i: int|
        0 <= i < cs.len() && #[trigger] contributes(cs, i) && disp(cs[i], k) == p;
    let c = cs[i];
    lemma_run_common_prefix(cs, cs.len() as int);
    assert(is_prefix(k, c));
    if c.len() <= k.len() {
        // the candidate equal to the ancestor: the display path is the
        // ancestor itself
        if p.len() > 0 && p.last() == ellipsis_seq() {
            lemma_prefix_from_index(p.drop_last(), p);
            lemma_prefix_trans(p.drop_last(), p, c);
        }
        assert(is_prefix(strip_ellipsis(p), cs[i]));
    } else if c.len() == k.len() + 1 {
        // a direct child, kept whole
        if p.len() > 0 && p.last() == ellipsis_seq() {
            lemma_prefix_from_index(p.drop_last(), p);
            crate::paths::lemma_prefix_refl(c);
            lemma_prefix_trans(p.drop_last(), p, c);
        } else {
            crate::paths::lemma_prefix_refl(c);
        }
        assert(is_prefix(strip_ellipsis(p), cs[i]));
    } else {
        // a deeper candidate: the ellipsis goes, its direct-child prefix
        // stays an ancestor
        assert(p.last() == ellipsis_seq());
        assert(p.drop_last() =~= k.push(c[k.len() as int]));
        lemma_prefix_index(k, c);
        lemma_prefix_from_index(k.push(c[k.len() as int]), c);
        assert(is_prefix(strip_ellipsis(p), cs[i]));
    }
}

/// Uniqueness law: in a strictly sorted display list no two entries
/// materialize to the same display path.
pub proof fn lemma_uniqueness(out: Seq<Seq<Seq<char>>>, a: int, b: int)
    requires
        strictly_sorted(out),
        0 <= a < b < out.len(),
    ensures
        out[a] != out[b],
{
    assert(path_lt(out[a], out[b]));
    lemma_path_lt_trichotomy(out[a], out[b]);
}

/// No path in the list holds the reserved ellipsis component.
pub open spec fn ellipsis_free(cs: Seq<Seq<Seq<char>>>) -> bool {
    forall|i: int, j: int|
        0 <= i < cs.len() && 0 <= j < cs[i].len() ==> #[trigger] cs[i][j] != ellipsis_seq()
}

/// The display paths with their trailing ellipses removed, position by
/// position.
pub open spec fn strip_all(s: Seq<Seq<Seq<char>>>) -> Seq<Seq<Seq<char>>> {
    s.map_values(|p: Seq<Seq<char>>| strip_ellipsis(p))
}

/// What one stripped first-pass entry `q` looks like below the first
/// ancestor `k`, with `o` the entry before stripping: the ancestor itself,
/// kept whole, or one of its direct children.
spec fn stripped_shape(q: Seq<Seq<char>>, o: Seq<Seq<char>>, k: Seq<Seq<char>>) -> bool {
    is_prefix(k, q) && ((q == k && o == k) || q.len() == k.len() + 1)
}

/// Idempotence law: when no candidate uses the reserved ellipsis component,
/// feeding the resolver's own output, ellipsis stripped, back in under the
/// same root filter returns exactly that stripped set again.
pub proof fn lemma_idempotence(
    cands: Seq<Seq<Seq<char>>>,
    root: Seq<Seq<char>>,
    out1: Seq<Seq<Seq<char>>>,
    out2: Seq<Seq<Seq<char>>>,
)
    requires
        ellipsis_free(cands),
        resolver_post(cands, root, out1),
        resolver_post(strip_all(out1), root, out2),
    ensures
        forall|p: Seq<Seq<char>>| #[trigger] out2.contains(p) <==> strip_all(out1).contains(p),
{
    let acc1 = accepted_of(cands, root);
    let s = strip_all(out1);
    let acc2 = accepted_of(s, root);
    assert(s.len() == out1.len());
    if acc1.len() == 0 {
        assert(out1.len() == 0);
        assert(acc2 =~= Seq::<Seq<Seq<char>>>::empty());
        assert(out2.len() == 0);
    } else {
        let k = common_of(acc1);
        lemma_run_common_prefix(acc1, acc1.len() as int);
        lemma_accepted_members(cands, root);
        lemma_run_common_greatest(acc1, acc1.len() as int, root);
        lemma_accepted_from(cands, root);
        // the accepted list inherits ellipsis-freeness
        assert forall|i: int, j: int|
            0 <= i < acc1.len() && 0 <= j < acc1[i].len() implies #[trigger] acc1[i][j]
                != ellipsis_seq() by {
            assert(cands.contains(acc1[i]));
            let w = choose|w: int| 0 <= w < cands.len() && cands[w] == acc1[i];
            assert(cands[w][j] != ellipsis_seq());
        }
        // the first accepted candidate contributes, so the first output is
        // not empty
        assert(contributes(acc1, 0));
        assert(in_display(acc1, disp(acc1[0], k)));
        assert(out1.contains(disp(acc1[0], k)));
        assert(out1.len() > 0);
        // every stripped entry is the ancestor itself or one direct child
        assert forall|t: int| 0 <= t < s.len() implies #[trigger] stripped_shape(
            s[t],
            out1[t],
            k,
        ) by {
            assert(s[t] == strip_ellipsis(out1[t]));
            assert(out1.contains(out1[t]));
            assert(in_display(acc1, out1[t]));
            let i = choose|i: int|
                0 <= i < acc1.len() && #[trigger] contributes(acc1, i) && disp(acc1[i], k)
                    == out1[t];
            let c = acc1[i];
            assert(is_prefix(k, c));
            lemma_prefix_index(k, c);
            if c.len() <= k.len() {
                // the display is the ancestor; the ancestor is
                // ellipsis-free, so the strip leaves it whole
                assert(out1[t] == k);
                if k.len() > 0 {
                    assert(k.last() == c[k.len() - 1]);
                    assert(k.last() != ellipsis_seq());
                }
                assert(s[t] == k);
                lemma_prefix_refl(k);
            } else if c.len() == k.len() + 1 {
                assert(out1[t] == c);
                assert(c.last() == c[c.len() - 1]);
                assert(c.last() != ellipsis_seq());
                assert(s[t] == c);
            } else {
                let child = k.push(c[k.len() as int]);
                assert(out1[t] == child.push(ellipsis_seq()));
                assert(out1[t].last() == ellipsis_seq());
                assert(out1[t].drop_last() =~= child);
                assert(s[t] == child);
                lemma_prefix_from_index(k, child);
            }
        }
        // every stripped entry still passes the root filter: the second
        // pass accepts the whole list
        assert forall|i: int| 0 <= i < s.len() implies is_prefix(root, #[trigger] s[i]) by {
            assert(stripped_shape(s[i], out1[i], k));
            lemma_prefix_trans(root, k, s[i]);
        }
        lemma_accepted_all(s, root);
        assert(acc2 == s);
        let k2 = common_of(acc2);
        lemma_run_common_prefix(acc2, acc2.len() as int);
        assert forall|i: int| 0 <= i < acc2.len() implies is_prefix(k, #[trigger] acc2[i]) by {
            assert(stripped_shape(s[i], out1[i], k));
        }
        lemma_run_common_greatest(acc2, acc2.len() as int, k);
        // the second ancestor is the first again, unless every entry is one
        // and the same direct child
        let all_same = forall|i: int| 0 <= i < s.len() ==> #[trigger] s[i] == s[0];
        if all_same {
            lemma_run_common_const(acc2, acc2.len() as int, s[0]);
            assert(k2 == s[0]);
        } else {
            let b = choose|i: int| 0 <= i < s.len() && #[trigger] s[i] != s[0];
            if k2.len() > k.len() {
                // the second ancestor would swallow a whole direct child on
                // two distinct entries at once
                assert(stripped_shape(s[0], out1[0], k));
                assert(stripped_shape(s[b], out1[b], k));
                assert(is_prefix(k2, s[0]));
                assert(is_prefix(k2, s[b]));
                assert(s[0].len() == k.len() + 1);
                lemma_prefix_full(k2, s[0]);
                assert(s[b].len() == k.len() + 1);
                lemma_prefix_full(k2, s[b]);
                assert(false);
            }
            lemma_prefix_full(k, k2);
            assert(k2 == k);
        }
        // every second-pass display path is a stripped entry
        assert forall|p: Seq<Seq<char>>| #[trigger] out2.contains(p) implies s.contains(p) by {
            assert(in_display(acc2, p));
            let i = choose|i: int|
                0 <= i < acc2.len() && #[trigger] contributes(acc2, i) && disp(acc2[i], k2) == p;
            assert(stripped_shape(s[i], out1[i], k));
            if all_same {
                assert(s[i] == s[0]);
                assert(disp(s[i], k2) == s[i]);
            } else {
                if s[i] == k {
                    assert(disp(s[i], k2) == s[i]);
                } else {
                    assert(s[i].len() == k.len() + 1);
                    assert(disp(s[i], k2) == s[i]);
                }
            }
            assert(s[i] == p);
            assert(s.contains(p));
        }
        // and every stripped entry comes out of the second pass
        assert forall|p: Seq<Seq<char>>| s.contains(p) implies #[trigger] out2.contains(p) by {
            let m = choose|m: int| 0 <= m < s.len() && s[m] == p;
            if all_same {
                assert(s[0] == p);
                assert(contributes(acc2, 0));
                assert(disp(s[0], k2) == s[0]);
                assert(in_display(acc2, p));
            } else {
                assert(k2 == k);
                assert(stripped_shape(s[m], out1[m], k));
                if p == k {
                    // the bare ancestor sorts before its descendants, so it
                    // sits at the front, which always contributes
                    if s[0] != k {
                        assert(stripped_shape(s[0], out1[0], k));
                        assert(s[0].len() == k.len() + 1);
                        if out1[0].last() == ellipsis_seq() && out1[0].len() > 0 {
                            assert(s[0] == out1[0].drop_last());
                            lemma_prefix_from_index(s[0], out1[0]);
                        } else {
                            assert(s[0] == out1[0]);
                            lemma_prefix_refl(out1[0]);
                        }
                        lemma_prefix_trans(k, s[0], out1[0]);
                        lemma_prefix_path_lt(k, out1[0]);
                        if m > 0 {
                            assert(path_lt(out1[0], out1[m]));
                            assert(out1[m] == k);
                            lemma_path_lt_trichotomy(k, out1[0]);
                            assert(false);
                        } else {
                            assert(false);
                        }
                    }
                    assert(s[0] == k);
                    assert(contributes(acc2, 0));
                    assert(disp(s[0], k2) == k);
                    assert(in_display(acc2, p));
                } else {
                    // a direct child: its own position contributes, or the
                    // whole front up to it carries the same value, which
                    // then contributes at the front
                    assert(s[m].len() == k.len() + 1);
                    if contributes(acc2, m) {
                        assert(disp(s[m], k2) == s[m]);
                        assert(in_display(acc2, p));
                    } else {
                        assert(m >= 1);
                        assert(is_prefix(s[m], run_common(acc2, m)));
                        lemma_run_common_prefix(acc2, m);
                        assert(is_prefix(run_common(acc2, m), s[0]));
                        assert(stripped_shape(s[0], out1[0], k));
                        assert(run_common(acc2, m).len() >= s[m].len());
                        assert(s[0].len() == k.len() + 1);
                        lemma_prefix_full(run_common(acc2, m), s[0]);
                        lemma_prefix_full(s[m], run_common(acc2, m));
                        assert(s[0] == p);
                        assert(contributes(acc2, 0));
                        assert(disp(s[0], k2) == s[0]);
                        assert(in_display(acc2, p));
                    }
                }
            }
        }
    }
}


/// Every display path of a well-formed accepted candidate list is itself
/// well formed: each of its components comes from a candidate, or is the
/// ellipsis.
pub proof fn lemma_display_well_formed(cs: Seq<Seq<Seq<char>>>, p: Seq<Seq<char>>)
    requires
        cs.len() > 0,
        forall|i: int| 0 <= i < cs.len() ==> well_formed(#[trigger] cs[i]),
        in_display(cs, p),
    ensures
        well_formed(p),
{
    let k = common_of(cs);
    let i = choose|i: int|
        0 <= i < cs.len() && #[trigger] contributes(cs, i) && disp(cs[i], k) == p;
    let c = cs[i];
    lemma_run_common_prefix(cs, cs.len() as int);
    lemma_prefix_index(k, c);
    assert(well_formed(c));
    if c.len() <= k.len() {
        assert(p == k);
        assert forall|u: int| 0 <= u < p.len() implies (#[trigger] p[u]).len() > 0 by {
            assert(p[u] == c[u]);
        }
        assert forall|u: int, j: int|
            0 <= u < p.len() && 0 <= j < p[u].len() implies #[trigger] p[u][j] != '/' by {
            assert(p[u] == c[u]);
        }
    } else if c.len() == k.len() + 1 {
        assert(p == c);
    } else {
        assert(p == k.push(c[k.len() as int]).push(ellipsis_seq()));
        assert forall|u: int| 0 <= u < p.len() implies (#[trigger] p[u]).len() > 0 by {
            if u < k.len() {
                assert(p[u] == c[u]);
            } else if u == k.len() {
                assert(p[u] == c[k.len() as int]);
            } else {
                assert(p[u] == ellipsis_seq());
            }
        }
        assert forall|u: int, j: int|
            0 <= u < p.len() && 0 <= j < p[u].len() implies #[trigger] p[u][j] != '/' by {
            if u < k.len() {
                assert(p[u] == c[u]);
            } else if u == k.len() {
                assert(p[u] == c[k.len() as int]);
            } else {
                assert(p[u] == ellipsis_seq());
                assert(p[u][j] == '.');
            }
        }
    }
}

/// Uniqueness law, at the string level: two entries of a sorted display
/// list of well-formed paths render to two different display strings.
pub proof fn lemma_display_strings_unique(out: Seq<Seq<Seq<char>>>, a: int, b: int)
    requires
        strictly_sorted(out),
        0 <= a < b < out.len(),
        well_formed(out[a]),
        well_formed(out[b]),
    ensures
        render_spec(out[a]) != render_spec(out[b]),
{
    lemma_uniqueness(out, a, b);
    lemma_render_injective(out[a], out[b]);
}

} // verus!
