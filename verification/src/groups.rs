//! What the groups of a batch of openings hold, in terms of the queries.
use crate::arith;
use crate::collapse;
use crate::curve;
use crate::curve::CurveAffine;
use crate::field::Field;
use crate::multiexp;
use crate::multiopen;
use crate::multiopen::MultiopenOpening;
use crate::poly;
use crate::qprime;
use crate::queries;
use crate::queries::{
    PolynomialPointer, ProverIntermediateSets, ProverIntermediateSetsResult, ProverQuery,
};
use crate::sums;
use vstd::arithmetic::mul::*;
use vstd::arithmetic::power::*;
use vstd::prelude::*;

verus! {

/// Values are listed in the order of their first places.
proof fn lemma_seen_in_order<T>(s: Seq<T>, i: int, j: int, a: int, b: int)
    requires
        0 <= a < queries::first_seen(s).len(),
        0 <= b < queries::first_seen(s).len(),
        0 <= i < s.len(),
        0 <= j < s.len(),
        s[i] == queries::first_seen(s)[a],
        s[j] == queries::first_seen(s)[b],
        forall|k: int| 0 <= k < i ==> #[trigger] s[k] != s[i],
        forall|k: int| 0 <= k < j ==> #[trigger] s[k] != s[j],
        i < j,
    ensures
        a < b,
    decreases s.len(),
{
    let f = s.drop_last();
    let g = queries::first_seen(f);
    queries::lemma_first_seen(s);
    queries::lemma_first_seen(f);
    assert(f[i] == s[i]);
    assert(f.contains(s[i]));
    assert(g.contains(s[i]));
    let c = choose|c: int| 0 <= c < g.len() && g[c] == s[i];
    assert(queries::first_seen(s)[c] == s[i]);
    assert(c == a);
    if j < f.len() {
        assert(f[j] == s[j]);
        assert(f.contains(s[j]));
        assert(g.contains(s[j]));
        let d = choose|d: int| 0 <= d < g.len() && g[d] == s[j];
        assert(queries::first_seen(s)[d] == s[j]);
        assert(d == b);
        lemma_seen_in_order(f, i, j, a, b);
    } else {
        assert(!f.contains(s.last())) by {
            if f.contains(s.last()) {
                let k = choose|k: int| 0 <= k < f.len() && f[k] == s.last();
                assert(s[k] == s[j]);
            }
        }
        assert(queries::first_seen(s)[g.len() as int] == s[j]);
        assert(b == g.len());
    }
}

/// What a filter keeps depends on what is said of the values that are there.
proof fn lemma_filters_agree(s: Seq<int>, f: spec_fn(int) -> bool, g: spec_fn(int) -> bool)
    requires
        forall|x: int| #[trigger] s.contains(x) ==> f(x) == g(x),
    ensures
        s.filter(f) == s.filter(g),
    decreases s.len(),
{
    reveal(Seq::filter);
    if s.len() > 0 {
        let t = s.drop_last();
        assert forall|x: int| #[trigger] t.contains(x) implies f(x) == g(x) by {
            let i = choose|i: int| 0 <= i < t.len() && t[i] == x;
            assert(s[i] == x);
            assert(s.contains(x));
        }
        lemma_filters_agree(t, f, g);
        assert(s.contains(s.last())) by {
            assert(s[s.len() - 1] == s.last());
        }
    }
}

proof fn lemma_filter_contains(s: Seq<int>, f: spec_fn(int) -> bool, x: int)
    ensures
        s.filter(f).contains(x) <==> s.contains(x) && f(x),
    decreases s.len(),
{
    reveal(Seq::filter);
    if s.len() > 0 {
        let t = s.drop_last();
        lemma_filter_contains(t, f, x);
        let (u, v) = (t.filter(f), s.filter(f));
        if v.contains(x) {
            let i = choose|i: int| 0 <= i < v.len() && v[i] == x;
            if i < u.len() {
                assert(u[i] == x);
                assert(u.contains(x));
                let k = choose|k: int| 0 <= k < t.len() && t[k] == x;
                assert(s[k] == x);
            } else {
                assert(s[s.len() - 1] == x);
            }
        }
        if s.contains(x) && f(x) {
            let k = choose|k: int| 0 <= k < s.len() && s[k] == x;
            if k < t.len() {
                assert(t[k] == x);
                assert(t.contains(x));
                let i = choose|i: int| 0 <= i < u.len() && u[i] == x;
                assert(v[i] == x);
            } else {
                assert(v[v.len() - 1] == x);
            }
        }
    }
}

/// A polynomial's points are those at which it is queried.
proof fn lemma_point_set_contains<'a, C: CurveAffine>(
    queries: Seq<ProverQuery<'a, C>>,
    identity: int,
    x: int,
)
    ensures
        queries::point_set(queries::keys(queries), identity).contains(x) <==> exists|k: int|
            0 <= k < queries.len() && (#[trigger] queries[k]).commitment.identity == identity
                && queries[k].point.val() == x,
{
    let ks = queries::keys(queries);
    lemma_filter_contains(queries::points(ks), |y: int| ks.contains((identity, y)), x);
    queries::lemma_first_seen(queries::points_of(ks));
    if ks.contains((identity, x)) {
        let k = choose|k: int| 0 <= k < ks.len() && ks[k] == (identity, x);
        assert(queries[k].commitment.identity == identity && queries[k].point.val() == x);
        assert(queries::points_of(ks)[k] == x);
        assert(queries::points_of(ks).contains(x));
    }
    if exists|k: int|
        0 <= k < queries.len() && (#[trigger] queries[k]).commitment.identity == identity
            && queries[k].point.val() == x {
        let k = choose|k: int|
            0 <= k < queries.len() && (#[trigger] queries[k]).commitment.identity == identity
                && queries[k].point.val() == x;
        assert(ks[k] == (identity, x));
        assert(queries::points_of(ks)[k] == x);
        assert(queries::points_of(ks).contains(x));
    }
}

/// Polynomials with the same points have the same list of points.
proof fn lemma_same_point_set(ks: Seq<(int, int)>, a: int, b: int)
    requires
        forall|x: int| #[trigger]
            queries::point_set(ks, a).contains(x) <==> queries::point_set(ks, b).contains(x),
    ensures
        queries::point_set(ks, a) == queries::point_set(ks, b),
{
    let (f, g) = (|x: int| ks.contains((a, x)), |x: int| ks.contains((b, x)));
    assert forall|x: int| #[trigger] queries::points(ks).contains(x) implies f(x) == g(x) by {
        lemma_filter_contains(queries::points(ks), f, x);
        lemma_filter_contains(queries::points(ks), g, x);
        assert(queries::point_set(ks, a).contains(x) <==> queries::point_set(ks, b).contains(x));
    }
    lemma_filters_agree(queries::points(ks), f, g);
}

/// The members of a group, from the places at which they stand.
proof fn lemma_members_at<'a, C: CurveAffine>(
    commitments: Seq<(PolynomialPointer<'a, C>, usize)>,
    s: int,
    at: Seq<int>,
)
    requires
        forall|j: int, k: int| 0 <= j < k < at.len() ==> at[j] < at[k],
        forall|j: int|
            0 <= j < at.len() ==> 0 <= #[trigger] at[j] < commitments.len()
                && commitments[at[j]].1 == s,
        forall|c: int|
            0 <= c < commitments.len() && (#[trigger] commitments[c]).1 == s ==> at.contains(c),
    ensures
        multiopen::members(commitments, s) == Seq::new(at.len(), |j: int| commitments[at[j]].0),
    decreases commitments.len(),
{
    let listed = Seq::new(at.len(), |j: int| commitments[at[j]].0);
    if commitments.len() == 0 {
        if at.len() > 0 {
            assert(0 <= at[0] < commitments.len());
        }
        assert(listed =~= Seq::empty());
    } else {
        let f = commitments.drop_last();
        let last = commitments.len() - 1;
        if commitments.last().1 == s {
            assert(commitments[last].1 == s);
            assert(at.contains(last));
            let j = choose|j: int| 0 <= j < at.len() && at[j] == last;
            if j < at.len() - 1 {
                assert(at[j] < at[at.len() - 1]);
                assert(at[at.len() - 1] < commitments.len());
            }
            let b = at.drop_last();
            assert forall|i: int| 0 <= i < b.len() implies 0 <= #[trigger] b[i] < f.len()
                && f[b[i]].1 == s by {
                assert(at[i] < at[at.len() - 1]);
                assert(0 <= at[i] < commitments.len() && commitments[at[i]].1 == s);
            }
            assert forall|c: int| 0 <= c < f.len() && (#[trigger] f[c]).1 == s implies b.contains(
                c,
            ) by {
                assert(commitments[c].1 == s);
                assert(at.contains(c));
                let i = choose|i: int| 0 <= i < at.len() && at[i] == c;
                assert(b[i] == c);
            }
            lemma_members_at(f, s, b);
            assert(listed =~= Seq::new(b.len(), |j: int| f[b[j]].0).push(commitments.last().0)) by {
                assert forall|i: int| 0 <= i < b.len() implies listed[i] == f[b[i]].0 by {
                    assert(0 <= b[i] < f.len());
                }
            }
        } else {
            assert forall|i: int| 0 <= i < at.len() implies 0 <= #[trigger] at[i] < f.len()
                && f[at[i]].1 == s by {
                assert(commitments[at[i]].1 == s);
            }
            assert forall|c: int| 0 <= c < f.len() && (#[trigger] f[c]).1 == s implies at.contains(
                c,
            ) by {
                assert(commitments[c].1 == s);
            }
            lemma_members_at(f, s, at);
            assert(listed =~= Seq::new(at.len(), |j: int| f[at[j]].0)) by {
                assert forall|i: int| 0 <= i < at.len() implies listed[i] == f[at[i]].0 by {
                    assert(0 <= at[i] < f.len());
                }
            }
        }
    }
}

/// The number of the polynomial of a query among the distinct ones.
proof fn lemma_number<'a, C: CurveAffine>(
    sets: ProverIntermediateSets<'a, C>,
    queries: Seq<ProverQuery<'a, C>>,
    i: int,
) -> (c: int)
    requires
        sets.groups(queries),
        0 <= i < queries.len(),
    ensures
        0 <= c < sets.commitments@.len(),
        sets.commitments@[c].0.identity == queries[i].commitment.identity,
        queries::identities(queries::keys(queries))[c] == queries[i].commitment.identity,
        (forall|j: int|
            0 <= j < i ==> (#[trigger] queries[j]).commitment.identity
                != queries[i].commitment.identity) ==> sets.commitments@[c].0
            == queries[i].commitment,
{
    let ks = queries::keys(queries);
    let ids = queries::identities_of(ks);
    queries::lemma_first_seen(ids);
    let id = queries[i].commitment.identity as int;
    assert(ids[i] == id);
    assert(ids.contains(id));
    assert(queries::first_seen(ids).contains(id));
    let c = choose|c: int| 0 <= c < queries::first_seen(ids).len() && queries::first_seen(ids)[c] == id;
    let (pointer, set) = sets.commitments@[c];
    assert(queries::first_pointer(queries, pointer));
    let k = choose|k: int|
        0 <= k < queries.len() && (#[trigger] queries[k]).commitment == pointer && forall|j: int|
            0 <= j < k ==> (#[trigger] queries[j]).commitment.identity != pointer.identity;
    if k < i {
        assert(queries[k].commitment.identity == queries[i].commitment.identity);
    }
    if i < k {
        assert(queries[i].commitment.identity != pointer.identity);
    }
    c
}

/// Whether the polynomial of a query has exactly the given points.
proof fn lemma_in_group<'a, C: CurveAffine>(
    sets: ProverIntermediateSets<'a, C>,
    queries: Seq<ProverQuery<'a, C>>,
    i: int,
    c: int,
    s: int,
)
    requires
        sets.groups(queries),
        0 <= i < queries.len(),
        0 <= c < sets.commitments@.len(),
        0 <= s < sets.point_sets@.len(),
        queries::identities(queries::keys(queries))[c] == queries[i].commitment.identity,
    ensures
        sets.commitments@[c].1 == s <==> forall|x: int| #[trigger]
            poly::vals(sets.point_sets@[s]@).contains(x) <==> exists|k: int|
                0 <= k < queries.len() && (#[trigger] queries[k]).commitment.identity
                    == queries[i].commitment.identity && queries[k].point.val() == x,
{
    let ks = queries::keys(queries);
    let all = Seq::new(queries::identities(ks).len(), |c: int| queries::point_set(ks, queries::identities(ks)[c]));
    let listed = qprime::vec_vals(sets.point_sets@);
    let id = queries[i].commitment.identity as int;
    queries::lemma_first_seen(all);
    assert(listed == queries::first_seen(all));
    let (pointer, set) = sets.commitments@[c];
    assert(listed[set as int] == poly::vals(sets.point_sets@[set as int]@));
    assert(listed[s] == poly::vals(sets.point_sets@[s]@));
    assert(listed[set as int] == queries::point_set(ks, id));
    assert forall|x: int| #[trigger] queries::point_set(ks, id).contains(x) <==> exists|k: int|
        0 <= k < queries.len() && (#[trigger] queries[k]).commitment.identity == id
            && queries[k].point.val() == x by {
        lemma_point_set_contains(queries, id, x);
    }
    if forall|x: int| #[trigger]
        poly::vals(sets.point_sets@[s]@).contains(x) <==> exists|k: int|
            0 <= k < queries.len() && (#[trigger] queries[k]).commitment.identity
                == queries[i].commitment.identity && queries[k].point.val() == x {
        assert(listed.contains(listed[s]));
        assert(all.contains(listed[s]));
        let d = choose|d: int| 0 <= d < all.len() && all[d] == listed[s];
        let other = queries::identities(ks)[d];
        assert forall|x: int| #[trigger]
            queries::point_set(ks, other).contains(x) <==> queries::point_set(ks, id).contains(x) by {
            assert(poly::vals(sets.point_sets@[s]@).contains(x) <==> exists|k: int|
                0 <= k < queries.len() && (#[trigger] queries[k]).commitment.identity
                    == queries[i].commitment.identity && queries[k].point.val() == x);
        }
        lemma_same_point_set(ks, other, id);
        assert(listed[set as int] == listed[s]);
    }
}

/// The members of a group are the polynomials of the queries that are the first about their
/// polynomial, where it has exactly the group's points.
proof fn lemma_group_members<'a, C: CurveAffine>(
    sets: ProverIntermediateSets<'a, C>,
    queries: Seq<ProverQuery<'a, C>>,
    s: int,
    at: Seq<int>,
)
    requires
        sets.groups(queries),
        0 <= s < sets.point_sets@.len(),
        forall|j: int, k: int| 0 <= j < k < at.len() ==> at[j] < at[k],
        forall|i: int| #[trigger]
            at.contains(i) <==> 0 <= i < queries.len() && (forall|j: int|
                0 <= j < i ==> (#[trigger] queries[j]).commitment.identity
                    != queries[i].commitment.identity) && (forall|x: int| #[trigger]
                poly::vals(sets.point_sets@[s]@).contains(x) <==> exists|k: int|
                    0 <= k < queries.len() && (#[trigger] queries[k]).commitment.identity
                        == queries[i].commitment.identity && queries[k].point.val() == x),
    ensures
        multiopen::members(sets.commitments@, s) == Seq::new(at.len(), |j: int| queries[at[j]].commitment),
        at.len() > 0,
{
    let ks = queries::keys(queries);
    let ids = queries::identities_of(ks);
    let commitments = sets.commitments@;
    queries::lemma_first_seen(ids);
    assert forall|j: int| 0 <= j < at.len() implies 0 <= #[trigger] at[j] < queries.len() && (forall|
        i: int,
    |
        0 <= i < at[j] ==> (#[trigger] queries[i]).commitment.identity
            != queries[at[j]].commitment.identity) by {
        assert(at.contains(at[j]));
    }
    let numbered = |j: int, c: int|
        0 <= c < commitments.len() && queries::identities(ks)[c] == queries[at[j]].commitment.identity
            && commitments[c].0 == queries[at[j]].commitment && commitments[c].1 == s;
    assert forall|j: int| 0 <= j < at.len() implies 0 <= #[trigger] at[j] && exists|c: int| #[trigger]
        numbered(j, c) by {
        assert(at.contains(at[j]));
        let c = lemma_number(sets, queries, at[j]);
        lemma_in_group(sets, queries, at[j], c, s);
        assert(numbered(j, c));
    }
    let idx = Seq::new(at.len(), |j: int| choose|c: int| #[trigger] numbered(j, c));
    assert forall|j: int| 0 <= j < idx.len() implies #[trigger] numbered(j, idx[j]) by {
        assert(0 <= at[j]);
    }
    assert forall|j: int, k: int| 0 <= j < k < idx.len() implies idx[j] < idx[k] by {
        assert(numbered(j, idx[j]));
        assert(numbered(k, idx[k]));
        assert(at[j] < at[k]);
        assert forall|i: int| 0 <= i < at[j] implies #[trigger] ids[i] != ids[at[j]] by {
            assert(queries[i].commitment.identity != queries[at[j]].commitment.identity);
        }
        assert forall|i: int| 0 <= i < at[k] implies #[trigger] ids[i] != ids[at[k]] by {
            assert(queries[i].commitment.identity != queries[at[k]].commitment.identity);
        }
        lemma_seen_in_order(ids, at[j], at[k], idx[j], idx[k]);
    }
    assert forall|j: int| 0 <= j < idx.len() implies 0 <= #[trigger] idx[j] < commitments.len()
        && commitments[idx[j]].1 == s by {
        assert(numbered(j, idx[j]));
    }
    assert forall|c: int| 0 <= c < commitments.len() && (#[trigger] commitments[c]).1
        == s implies idx.contains(c) by {
        let (pointer, set) = commitments[c];
        assert(queries::first_pointer(queries, pointer));
        let i = choose|i: int|
            0 <= i < queries.len() && (#[trigger] queries[i]).commitment == pointer && forall|
                j: int,
            |
                0 <= j < i ==> (#[trigger] queries[j]).commitment.identity != pointer.identity;
        lemma_in_group(sets, queries, i, c, s);
        assert(at.contains(i));
        let j = choose|j: int| 0 <= j < at.len() && at[j] == i;
        assert(numbered(j, idx[j]));
        assert(queries::first_seen(ids)[idx[j]] == queries::first_seen(ids)[c]);
        assert(idx[j] == c);
    }
    lemma_members_at(commitments, s, idx);
    assert(multiopen::members(commitments, s) =~= Seq::new(at.len(), |j: int| queries[at[j]].commitment)) by {
        assert forall|j: int| 0 <= j < at.len() implies commitments[#[trigger] idx[j]].0
            == queries[at[j]].commitment by {
            assert(numbered(j, idx[j]));
        }
    }
    multiopen::lemma_members_nonempty(sets, queries, s);
    let c = choose|c: int| 0 <= c < commitments.len() && (#[trigger] commitments[c]).1 == s;
    assert(idx.contains(c));
}

/// Every queried polynomial counts in the group of its points: with the queries at the
/// places `at` all those that are the first about a polynomial with exactly the points of
/// set `s`, in order, the group's polynomial and blind are the sums of theirs, each times a
/// power of the challenge, the last with the power zero.
pub proof fn law_group_combines_all<'a, C: CurveAffine>(
    opening: MultiopenOpening<'a, C>,
    sets: ProverIntermediateSets<'a, C>,
    queries: Seq<ProverQuery<'a, C>>,
    x_1: C::ScalarExt,
    s: int,
    at: Seq<int>,
)
    requires
        opening.wf(),
        opening.combines(sets, queries, x_1.val()),
        0 <= s < opening.point_sets@.len(),
        forall|j: int, k: int| 0 <= j < k < at.len() ==> at[j] < at[k],
        forall|i: int| #[trigger]
            at.contains(i) <==> 0 <= i < queries.len() && (forall|j: int|
                0 <= j < i ==> (#[trigger] queries[j]).commitment.identity
                    != queries[i].commitment.identity) && (forall|x: int| #[trigger]
                poly::vals(opening.point_sets@[s]@).contains(x) <==> exists|k: int|
                    0 <= k < queries.len() && (#[trigger] queries[k]).commitment.identity
                        == queries[i].commitment.identity && queries[k].point.val() == x),
    ensures
        at.len() > 0,
        opening.q_blinds@[s].0.val() == Seq::new(
            at.len(),
            |j: int|
                queries[at[j]].commitment.blind.0.val() * pow(
                    x_1.val(),
                    (at.len() - 1 - j) as nat,
                ),
        ).fold_left(0int, |a: int, b: int| a + b) % C::ScalarExt::order(),
        opening.q_polys@[s].values@.len() == opening.params.n,
        forall|i: int|
            0 <= i < opening.params.n ==> (#[trigger] opening.q_polys@[s].values@[i]).val() == (if i
                < queries[at[0]].commitment.poly.values@.len() {
                Seq::new(
                    at.len(),
                    |j: int|
                        (if i < queries[at[j]].commitment.poly.values@.len() {
                            queries[at[j]].commitment.poly.values@[i].val()
                        } else {
                            0
                        }) * pow(x_1.val(), (at.len() - 1 - j) as nat),
                ).fold_left(0int, |a: int, b: int| a + b) % C::ScalarExt::order()
            } else {
                0
            }),
{
    assert(qprime::vec_vals(opening.point_sets@)[s] == poly::vals(opening.point_sets@[s]@));
    assert(qprime::vec_vals(opening.point_sets@) == qprime::vec_vals(sets.point_sets@));
    assert(qprime::vec_vals(sets.point_sets@)[s] == poly::vals(sets.point_sets@[s]@));
    lemma_group_members(sets, queries, s, at);
    let m = multiopen::members(sets.commitments@, s);
    let x = x_1.val();
    let blinds = multiopen::pointer_blinds(m);
    sums::law_descending_powers(blinds, x);
    assert(Seq::new(blinds.len(), |j: int| blinds[j] * pow(x, (blinds.len() - 1 - j) as nat))
        =~= Seq::new(
        at.len(),
        |j: int|
            queries[at[j]].commitment.blind.0.val() * pow(x_1.val(), (at.len() - 1 - j) as nat),
    ));
    assert(opening.q_blinds@[s].0.val() == arith::descending(blinds, x) % C::ScalarExt::order());
    let group = multiopen::pointer_polys(m);
    assert(multiopen::group_padded(opening.q_polys@[s].values@, group, x, opening.params.n as int));
    assert(group[0].len() == queries[at[0]].commitment.poly.values@.len());
    assert forall|i: int| 0 <= i < opening.params.n implies (
    #[trigger] opening.q_polys@[s].values@[i]).val() == (if i
        < queries[at[0]].commitment.poly.values@.len() {
        Seq::new(
            at.len(),
            |j: int|
                (if i < queries[at[j]].commitment.poly.values@.len() {
                    queries[at[j]].commitment.poly.values@[i].val()
                } else {
                    0
                }) * pow(x_1.val(), (at.len() - 1 - j) as nat),
        ).fold_left(0int, |a: int, b: int| a + b) % C::ScalarExt::order()
    } else {
        0
    }) by {
        let c = collapse::column(group, i);
        sums::law_descending_powers(c, x);
        assert(Seq::new(c.len(), |j: int| c[j] * pow(x, (c.len() - 1 - j) as nat)) =~= Seq::new(
            at.len(),
            |j: int|
                (if i < queries[at[j]].commitment.poly.values@.len() {
                    queries[at[j]].commitment.poly.values@[i].val()
                } else {
                    0
                }) * pow(x_1.val(), (at.len() - 1 - j) as nat),
        )) by {
            assert forall|j: int| 0 <= j < at.len() implies #[trigger] c[j] == (if i
                < queries[at[j]].commitment.poly.values@.len() {
                queries[at[j]].commitment.poly.values@[i].val()
            } else {
                0
            }) by {
                assert(group[j] == poly::vals(queries[at[j]].commitment.poly.values@));
            }
        }
    }
}

/// The commitment to a group's polynomial with its blind is the sum of the commitments to
/// the group's polynomials, each times a power of the challenge, the last with the power
/// zero: what a verifier combines is what is opened.
pub proof fn law_group_commitment<'a, C: CurveAffine>(
    opening: MultiopenOpening<'a, C>,
    sets: ProverIntermediateSets<'a, C>,
    queries: Seq<ProverQuery<'a, C>>,
    x_1: C::ScalarExt,
    s: int,
    at: Seq<int>,
)
    requires
        opening.wf(),
        opening.combines(sets, queries, x_1.val()),
        0 <= s < opening.point_sets@.len(),
        forall|i: int|
            0 <= i < queries.len() ==> (#[trigger] queries[i]).commitment.poly.values@.len()
                == opening.params.n,
        forall|j: int, k: int| 0 <= j < k < at.len() ==> at[j] < at[k],
        forall|i: int| #[trigger]
            at.contains(i) <==> 0 <= i < queries.len() && (forall|j: int|
                0 <= j < i ==> (#[trigger] queries[j]).commitment.identity
                    != queries[i].commitment.identity) && (forall|x: int| #[trigger]
                poly::vals(opening.point_sets@[s]@).contains(x) <==> exists|k: int|
                    0 <= k < queries.len() && (#[trigger] queries[k]).commitment.identity
                        == queries[i].commitment.identity && queries[k].point.val() == x),
    ensures
        opening.params.committed(
            poly::vals(opening.q_polys@[s].values@),
            opening.q_blinds@[s].0.val(),
        ) == Seq::new(
            at.len(),
            |j: int|
                opening.params.committed(
                    poly::vals(queries[at[j]].commitment.poly.values@),
                    queries[at[j]].commitment.blind.0.val(),
                ) * pow(x_1.val(), (at.len() - 1 - j) as nat),
        ).fold_left(0int, |a: int, b: int| a + b) % C::ScalarExt::order(),
{
    let q = C::ScalarExt::order();
    C::ScalarExt::lemma_order();
    let params = opening.params;
    let n = params.n as nat;
    let x = x_1.val();
    assert(qprime::vec_vals(opening.point_sets@)[s] == poly::vals(opening.point_sets@[s]@));
    assert(qprime::vec_vals(opening.point_sets@) == qprime::vec_vals(sets.point_sets@));
    assert(qprime::vec_vals(sets.point_sets@)[s] == poly::vals(sets.point_sets@[s]@));
    lemma_group_members(sets, queries, s, at);
    let m = multiopen::members(sets.commitments@, s);
    let (group, blinds) = (multiopen::pointer_polys(m), multiopen::pointer_blinds(m));
    let b = curve::logs(params.g@);
    let w = curve::log(params.w);
    let pp = poly::vals(opening.q_polys@[s].values@);
    let exact = Seq::new(n, |i: int| arith::descending(collapse::column(group, i), x));
    assert forall|j: int| 0 <= j < group.len() implies (#[trigger] group[j]).len() == n by {
        assert(at.contains(at[j]));
        assert(queries[at[j]].commitment.poly.values@.len() == n);
    }
    assert(multiopen::group_padded(opening.q_polys@[s].values@, group, x, n as int));
    assert(group[0].len() == n);
    assert forall|i: int| 0 <= i < pp.len() implies arith::eqm(#[trigger] pp[i], exact[i], q) by {
        assert(pp[i] == opening.q_polys@[s].values@[i].val());
        arith::lemma_mod_range(exact[i], q);
    }
    multiexp::lemma_dot_eqm(pp, b, exact, b, q);
    multiopen::lemma_combined_dot(group, n, x, b);
    let blind = opening.q_blinds@[s].0.val();
    let d = arith::descending(blinds, x);
    assert(blind == d % q);
    arith::lemma_mod_range(d, q);
    arith::lemma_eqm_mul(blind, d, w, w, q);
    let dots = Seq::new(group.len(), |j: int| multiexp::dot(group[j], b));
    arith::lemma_eqm_add(multiexp::dot(pp, b), arith::descending(dots, x), blind * w, d * w, q);
    multiopen::lemma_descending_sum(dots, blinds, w, x);
    let sums = Seq::new(group.len(), |j: int| dots[j] + blinds[j] * w);
    let parts = Seq::new(group.len(), |j: int| params.committed(group[j], blinds[j]));
    assert forall|j: int| 0 <= j < sums.len() implies arith::eqm(#[trigger] sums[j], parts[j], q) by {
        arith::lemma_mod_range(sums[j], q);
    }
    arith::lemma_descending_eqm(sums, parts, x, x, q);
    sums::law_descending_powers(parts, x);
    assert(Seq::new(parts.len(), |j: int| parts[j] * pow(x, (parts.len() - 1 - j) as nat))
        =~= Seq::new(
        at.len(),
        |j: int|
            opening.params.committed(
                poly::vals(queries[at[j]].commitment.poly.values@),
                queries[at[j]].commitment.blind.0.val(),
            ) * pow(x_1.val(), (at.len() - 1 - j) as nat),
    )) by {
        assert forall|j: int| 0 <= j < at.len() implies #[trigger] parts[j]
            == opening.params.committed(
            poly::vals(queries[at[j]].commitment.poly.values@),
            queries[at[j]].commitment.blind.0.val(),
        ) by {
            assert(group[j] == poly::vals(queries[at[j]].commitment.poly.values@));
        }
    }
}

/// Every queried polynomial has exactly the points of one of the sets.
pub proof fn law_every_polynomial_has_a_group<'a, C: CurveAffine>(
    opening: MultiopenOpening<'a, C>,
    sets: ProverIntermediateSets<'a, C>,
    queries: Seq<ProverQuery<'a, C>>,
    x_1: C::ScalarExt,
    i: int,
) -> (s: int)
    requires
        opening.combines(sets, queries, x_1.val()),
        0 <= i < queries.len(),
    ensures
        0 <= s < opening.point_sets@.len(),
        forall|x: int| #[trigger]
            poly::vals(opening.point_sets@[s]@).contains(x) <==> exists|k: int|
                0 <= k < queries.len() && (#[trigger] queries[k]).commitment.identity
                    == queries[i].commitment.identity && queries[k].point.val() == x,
{
    let c = lemma_number(sets, queries, i);
    let (pointer, set) = sets.commitments@[c];
    let s = set as int;
    assert(qprime::vec_vals(opening.point_sets@) == qprime::vec_vals(sets.point_sets@));
    assert(qprime::vec_vals(opening.point_sets@).len() == opening.point_sets@.len());
    assert(qprime::vec_vals(opening.point_sets@)[s] == poly::vals(opening.point_sets@[s]@));
    assert(qprime::vec_vals(sets.point_sets@)[s] == poly::vals(sets.point_sets@[s]@));
    lemma_in_group(sets, queries, i, c, s);
    s
}

/// No two sets hold the same points.
pub proof fn law_sets_differ<'a, C: CurveAffine>(
    opening: MultiopenOpening<'a, C>,
    sets: ProverIntermediateSets<'a, C>,
    queries: Seq<ProverQuery<'a, C>>,
    x_1: C::ScalarExt,
    s: int,
    t: int,
)
    requires
        opening.combines(sets, queries, x_1.val()),
        0 <= s < opening.point_sets@.len(),
        0 <= t < opening.point_sets@.len(),
        forall|x: int| #[trigger]
            poly::vals(opening.point_sets@[s]@).contains(x) <==> poly::vals(opening.point_sets@[t]@).contains(
                x,
            ),
    ensures
        s == t,
{
    let ks = queries::keys(queries);
    let all = Seq::new(queries::identities(ks).len(), |c: int| queries::point_set(ks, queries::identities(ks)[c]));
    let listed = qprime::vec_vals(opening.point_sets@);
    queries::lemma_first_seen(all);
    assert(listed == queries::first_seen(all));
    assert(listed.contains(listed[s]) && listed.contains(listed[t]));
    let c = lemma_first_place(all, listed[s]);
    let d = lemma_first_place(all, listed[t]);
    assert(listed[s] == poly::vals(opening.point_sets@[s]@));
    assert(listed[t] == poly::vals(opening.point_sets@[t]@));
    lemma_same_point_set(ks, queries::identities(ks)[c], queries::identities(ks)[d]);
}

/// The points of a set are all different and in the order in which they are first queried.
pub proof fn law_points_in_order<'a, C: CurveAffine>(
    opening: MultiopenOpening<'a, C>,
    sets: ProverIntermediateSets<'a, C>,
    queries: Seq<ProverQuery<'a, C>>,
    x_1: C::ScalarExt,
    s: int,
    a: int,
    b: int,
    i: int,
    j: int,
)
    requires
        opening.combines(sets, queries, x_1.val()),
        0 <= s < opening.point_sets@.len(),
        0 <= a < opening.point_sets@[s]@.len(),
        0 <= b < opening.point_sets@[s]@.len(),
        0 <= i < queries.len(),
        0 <= j < queries.len(),
        queries[i].point.val() == opening.point_sets@[s]@[a].val(),
        queries[j].point.val() == opening.point_sets@[s]@[b].val(),
        forall|k: int| 0 <= k < i ==> (#[trigger] queries[k]).point.val() != queries[i].point.val(),
        forall|k: int| 0 <= k < j ==> (#[trigger] queries[k]).point.val() != queries[j].point.val(),
    ensures
        a < b <==> i < j,
        a == b <==> i == j,
{
    let ks = queries::keys(queries);
    let all = Seq::new(queries::identities(ks).len(), |c: int| queries::point_set(ks, queries::identities(ks)[c]));
    let listed = qprime::vec_vals(opening.point_sets@);
    queries::lemma_first_seen(all);
    assert(listed.contains(listed[s]));
    assert(queries::first_seen(all).contains(listed[s]));
    let c = choose|c: int| 0 <= c < all.len() && all[c] == listed[s];
    let id = queries::identities(ks)[c];
    let list = poly::vals(opening.point_sets@[s]@);
    assert(list == listed[s]);
    let keep = |x: int| ks.contains((id, x));
    let pts = queries::points_of(ks);
    queries::lemma_first_seen(pts);
    let at = lemma_filter_places(queries::points(ks), keep);
    assert(queries::points(ks)[at[a]] == list[a]);
    assert(queries::points(ks)[at[b]] == list[b]);
    assert forall|k: int| 0 <= k < i implies #[trigger] pts[k] != pts[i] by {
        assert(queries[k].point.val() != queries[i].point.val());
    }
    assert forall|k: int| 0 <= k < j implies #[trigger] pts[k] != pts[j] by {
        assert(queries[k].point.val() != queries[j].point.val());
    }
    if i < j {
        lemma_seen_in_order(pts, i, j, at[a], at[b]);
        if b < a {
            assert(at[b] < at[a]);
        }
    } else if j < i {
        lemma_seen_in_order(pts, j, i, at[b], at[a]);
        if a < b {
            assert(at[a] < at[b]);
        }
    } else {
        assert(queries::points(ks)[at[a]] == queries::points(ks)[at[b]]);
        assert(at[a] == at[b]);
        if a < b {
            assert(at[a] < at[b]);
        }
        if b < a {
            assert(at[b] < at[a]);
        }
    }
}

/// The places of what a filter keeps.
proof fn lemma_filter_places(s: Seq<int>, f: spec_fn(int) -> bool) -> (at: Seq<int>)
    ensures
        at.len() == s.filter(f).len(),
        forall|j: int| 0 <= j < at.len() ==> 0 <= #[trigger] at[j] < s.len(),
        forall|j: int| 0 <= j < at.len() ==> s[#[trigger] at[j]] == s.filter(f)[j],
        forall|j: int, k: int| 0 <= j < k < at.len() ==> at[j] < at[k],
    decreases s.len(),
{
    reveal(Seq::filter);
    if s.len() == 0 {
        Seq::empty()
    } else {
        let t = s.drop_last();
        let at = lemma_filter_places(t, f);
        assert forall|j: int| 0 <= j < at.len() implies 0 <= #[trigger] at[j] < s.len()
            && s[at[j]] == t.filter(f)[j] by {
            assert(t[at[j]] == s[at[j]]);
        }
        if f(s.last()) {
            at.push(s.len() - 1)
        } else {
            at
        }
    }
}

/// Sets of points are in the order in which the first polynomials with these points are
/// first queried.
pub proof fn law_sets_in_order<'a, C: CurveAffine>(
    opening: MultiopenOpening<'a, C>,
    sets: ProverIntermediateSets<'a, C>,
    queries: Seq<ProverQuery<'a, C>>,
    x_1: C::ScalarExt,
    s: int,
    t: int,
) -> (i: int)
    requires
        opening.combines(sets, queries, x_1.val()),
        0 <= s < t < opening.point_sets@.len(),
    ensures
        0 <= i < queries.len(),
        forall|x: int| #[trigger]
            poly::vals(opening.point_sets@[s]@).contains(x) <==> exists|k: int|
                0 <= k < queries.len() && (#[trigger] queries[k]).commitment.identity
                    == queries[i].commitment.identity && queries[k].point.val() == x,
        forall|j: int|
            0 <= j <= i ==> !(forall|x: int| #[trigger]
                poly::vals(opening.point_sets@[t]@).contains(x) <==> exists|k: int|
                    0 <= k < queries.len() && (#[trigger] queries[k]).commitment.identity == (
                    #[trigger] queries[j]).commitment.identity && queries[k].point.val() == x),
{
    let ks = queries::keys(queries);
    let ids = queries::identities_of(ks);
    let all = Seq::new(queries::identities(ks).len(), |c: int| queries::point_set(ks, queries::identities(ks)[c]));
    let listed = qprime::vec_vals(opening.point_sets@);
    assert(qprime::vec_vals(sets.point_sets@) == listed);
    assert(listed == queries::first_seen(all));
    queries::lemma_first_seen(all);
    queries::lemma_first_seen(ids);
    let c = lemma_first_place(all, listed[s]);
    let d = lemma_first_place(all, listed[t]);
    if d <= c {
        if d == c {
            assert(listed[s] == listed[t]);
        } else {
            lemma_seen_in_order(all, d, c, t, s);
        }
    }
    assert(c < d);
    let i = lemma_first_place(ids, queries::identities(ks)[c]);
    assert(poly::vals(opening.point_sets@[s]@) == listed[s]);
    assert(poly::vals(opening.point_sets@[t]@) == listed[t]);
    assert(poly::vals(sets.point_sets@[s]@) == qprime::vec_vals(sets.point_sets@)[s]);
    assert(poly::vals(sets.point_sets@[t]@) == qprime::vec_vals(sets.point_sets@)[t]);
    assert(queries[i].commitment.identity == queries::identities(ks)[c]);
    assert forall|x: int| #[trigger]
        poly::vals(opening.point_sets@[s]@).contains(x) <==> exists|k: int|
            0 <= k < queries.len() && (#[trigger] queries[k]).commitment.identity
                == queries[i].commitment.identity && queries[k].point.val() == x by {
        lemma_point_set_contains(queries, queries::identities(ks)[c], x);
    }
    assert forall|j: int| 0 <= j <= i implies !(forall|x: int| #[trigger]
        poly::vals(opening.point_sets@[t]@).contains(x) <==> exists|k: int|
            0 <= k < queries.len() && (#[trigger] queries[k]).commitment.identity == (
            #[trigger] queries[j]).commitment.identity && queries[k].point.val() == x) by {
        if forall|x: int| #[trigger]
            poly::vals(opening.point_sets@[t]@).contains(x) <==> exists|k: int|
                0 <= k < queries.len() && (#[trigger] queries[k]).commitment.identity
                    == queries[j].commitment.identity && queries[k].point.val() == x {
            let e = lemma_number(sets, queries, j);
            lemma_in_group(sets, queries, j, e, t);
            let (pointer, set) = sets.commitments@[e];
            assert(set == t);
            assert(all[e] == listed[t]);
            assert(d <= e);
            let f = lemma_first_place(ids, queries::identities(ks)[e]);
            assert(ids[j] == queries::identities(ks)[e]);
            assert(f <= j);
            if f < i {
                lemma_seen_in_order(ids, f, i, e, c);
            } else {
                assert(queries::first_seen(ids)[e] == queries::first_seen(ids)[c]);
                assert(e == c);
            }
        }
    }
    i
}

/// The first place of a value.
proof fn lemma_first_place<T>(s: Seq<T>, x: T) -> (i: int)
    requires
        queries::first_seen(s).contains(x),
    ensures
        0 <= i < s.len(),
        s[i] == x,
        forall|k: int| 0 <= k < i ==> #[trigger] s[k] != s[i],
    decreases s.len(),
{
    queries::lemma_first_seen(s);
    assert(s.contains(x));
    let i = choose|i: int| 0 <= i < s.len() && s[i] == x;
    let t = s.take(i);
    queries::lemma_first_seen(t);
    if t.contains(x) {
        assert(queries::first_seen(t).contains(x));
        let j = lemma_first_place(t, x);
        assert(s[j] == t[j]);
        assert forall|k: int| 0 <= k < j implies #[trigger] s[k] != s[j] by {
            assert(s[k] == t[k]);
        }
        j
    } else {
        assert forall|k: int| 0 <= k < i implies #[trigger] s[k] != s[i] by {
            assert(t[k] == s[k]);
            if s[k] == x {
                assert(t.contains(x));
            }
        }
        i
    }
}

/// Queries are refused where two of them are about the same polynomial at the same point.
pub proof fn law_repeated_queries<'a, C: CurveAffine>(queries: Seq<ProverQuery<'a, C>>)
    ensures
        (exists|k: int| 0 <= k < queries.len() && #[trigger] queries::repeats(queries::keys(queries), k)) <==> exists|
            i: int,
            j: int,
        |
            0 <= i < j < queries.len() && (#[trigger] queries[i]).commitment.identity == (
            #[trigger] queries[j]).commitment.identity && queries[i].point.val()
                == queries[j].point.val(),
{
    let ks = queries::keys(queries);
    if exists|k: int| 0 <= k < queries.len() && #[trigger] queries::repeats(ks, k) {
        let j = choose|k: int| 0 <= k < queries.len() && #[trigger] queries::repeats(ks, k);
        let i = choose|i: int| 0 <= i < ks.take(j).len() && ks.take(j)[i] == ks[j];
        assert(ks[i] == ks[j]);
        assert(queries[i].key() == queries[j].key());
    }
    if exists|i: int, j: int|
        0 <= i < j < queries.len() && (#[trigger] queries[i]).commitment.identity == (
        #[trigger] queries[j]).commitment.identity && queries[i].point.val()
            == queries[j].point.val() {
        let (i, j) = choose|i: int, j: int|
            0 <= i < j < queries.len() && (#[trigger] queries[i]).commitment.identity == (
            #[trigger] queries[j]).commitment.identity && queries[i].point.val()
                == queries[j].point.val();
        assert(ks.take(j)[i] == ks[j]);
        assert(queries::repeats(ks, j));
    }
}

/// Every queried polynomial is listed once, as its first query has it, with the number of
/// the set that holds exactly the points at which it is queried.
pub proof fn law_polynomial_is_listed<'a, C: CurveAffine>(
    sets: ProverIntermediateSets<'a, C>,
    queries: Seq<ProverQuery<'a, C>>,
    i: int,
) -> (c: int)
    requires
        sets.groups(queries),
        0 <= i < queries.len(),
    ensures
        0 <= c < sets.commitments@.len(),
        sets.commitments@[c].0.identity == queries[i].commitment.identity,
        forall|d: int|
            0 <= d < sets.commitments@.len() && (#[trigger] sets.commitments@[d]).0.identity
                == queries[i].commitment.identity ==> d == c,
        (forall|j: int|
            0 <= j < i ==> (#[trigger] queries[j]).commitment.identity
                != queries[i].commitment.identity) ==> sets.commitments@[c].0
            == queries[i].commitment,
        sets.commitments@[c].1 < sets.point_sets@.len(),
        forall|x: int| #[trigger]
            poly::vals(sets.point_sets@[sets.commitments@[c].1 as int]@).contains(x) <==> exists|k: int|
                0 <= k < queries.len() && (#[trigger] queries[k]).commitment.identity
                    == queries[i].commitment.identity && queries[k].point.val() == x,
{
    let c = lemma_number(sets, queries, i);
    let (pointer, set) = sets.commitments@[c];
    lemma_in_group(sets, queries, i, c, set as int);
    let ids = queries::identities_of(queries::keys(queries));
    queries::lemma_first_seen(ids);
    assert forall|d: int|
        0 <= d < sets.commitments@.len() && (#[trigger] sets.commitments@[d]).0.identity
            == queries[i].commitment.identity implies d == c by {
        assert(queries::first_seen(ids)[d] == queries::first_seen(ids)[c]);
    }
    c
}

/// What is listed is queried, and the list is in the order of the first queries.
pub proof fn law_list_is_queried<'a, C: CurveAffine>(
    sets: ProverIntermediateSets<'a, C>,
    queries: Seq<ProverQuery<'a, C>>,
    c: int,
    d: int,
) -> (r: (int, int))
    requires
        sets.groups(queries),
        0 <= c < d < sets.commitments@.len(),
    ensures
        0 <= r.0 < r.1 < queries.len(),
        sets.commitments@[c].0 == queries[r.0].commitment,
        sets.commitments@[d].0 == queries[r.1].commitment,
        forall|j: int|
            0 <= j < r.0 ==> (#[trigger] queries[j]).commitment.identity
                != queries[r.0].commitment.identity,
        forall|j: int|
            0 <= j < r.1 ==> (#[trigger] queries[j]).commitment.identity
                != queries[r.1].commitment.identity,
{
    let ids = queries::identities_of(queries::keys(queries));
    queries::lemma_first_seen(ids);
    let i = lemma_listed(sets, queries, c);
    let j = lemma_listed(sets, queries, d);
    assert forall|k: int| 0 <= k < i implies #[trigger] ids[k] != ids[i] by {
        assert(queries[k].commitment.identity != queries[i].commitment.identity);
    }
    assert forall|k: int| 0 <= k < j implies #[trigger] ids[k] != ids[j] by {
        assert(queries[k].commitment.identity != queries[j].commitment.identity);
    }
    if i == j {
        assert(queries::first_seen(ids)[c] == queries::first_seen(ids)[d]);
    } else if j < i {
        lemma_seen_in_order(ids, j, i, d, c);
    }
    (i, j)
}

proof fn lemma_listed<'a, C: CurveAffine>(
    sets: ProverIntermediateSets<'a, C>,
    queries: Seq<ProverQuery<'a, C>>,
    c: int,
) -> (i: int)
    requires
        sets.groups(queries),
        0 <= c < sets.commitments@.len(),
    ensures
        0 <= i < queries.len(),
        sets.commitments@[c].0 == queries[i].commitment,
        queries::identities(queries::keys(queries))[c] == queries[i].commitment.identity,
        forall|j: int|
            0 <= j < i ==> (#[trigger] queries[j]).commitment.identity
                != queries[i].commitment.identity,
{
    let (pointer, set) = sets.commitments@[c];
    assert(queries::first_pointer(queries, pointer));
    choose|i: int|
        0 <= i < queries.len() && (#[trigger] queries[i]).commitment == pointer && forall|j: int|
            0 <= j < i ==> (#[trigger] queries[j]).commitment.identity != pointer.identity
}

/// There are too many points where more of the queries than the limit are the first at their
/// point.
pub proof fn law_too_many_points<'a, C: CurveAffine>(
    queries: Seq<ProverQuery<'a, C>>,
    k: int,
    limit: int,
)
    requires
        0 <= k < queries.len(),
    ensures
        queries::too_many(queries::keys(queries), k, limit) <==> Seq::new(
            (k + 1) as nat,
            |i: int|
                if exists|j: int|
                    0 <= j < i && (#[trigger] queries[j]).point.val() == queries[i].point.val() {
                    0int
                } else {
                    1
                },
        ).fold_left(0int, |a: int, b: int| a + b) > limit,
{
    let ks = queries::keys(queries);
    let s = queries::points_of(ks);
    assert(queries::points_of(ks.take(k + 1)) =~= s.take(k + 1));
    lemma_distinct_count(queries, k + 1);
}

proof fn lemma_distinct_count<'a, C: CurveAffine>(queries: Seq<ProverQuery<'a, C>>, n: int)
    requires
        0 <= n <= queries.len(),
    ensures
        queries::first_seen(queries::points_of(queries::keys(queries)).take(n)).len() == Seq::new(
            n as nat,
            |i: int|
                if exists|j: int|
                    0 <= j < i && (#[trigger] queries[j]).point.val() == queries[i].point.val() {
                    0int
                } else {
                    1
                },
        ).fold_left(0int, |a: int, b: int| a + b),
    decreases n,
{
    let s = queries::points_of(queries::keys(queries));
    let t = Seq::new(
        n as nat,
        |i: int|
            if exists|j: int|
                0 <= j < i && (#[trigger] queries[j]).point.val() == queries[i].point.val() {
                0int
            } else {
                1
            },
    );
    if n > 0 {
        lemma_distinct_count(queries, n - 1);
        let u = s.take(n);
        assert(u.drop_last() =~= s.take(n - 1));
        assert(t.drop_last() =~= Seq::new(
            (n - 1) as nat,
            |i: int|
                if exists|j: int|
                    0 <= j < i && (#[trigger] queries[j]).point.val() == queries[i].point.val() {
                    0int
                } else {
                    1
                },
        ));
        let x = queries[n - 1].point.val();
        assert(u.last() == x);
        if u.drop_last().contains(x) {
            let j = choose|j: int| 0 <= j < u.drop_last().len() && u.drop_last()[j] == x;
            assert(queries[j].point.val() == x);
        }
        if exists|j: int| 0 <= j < n - 1 && (#[trigger] queries[j]).point.val() == x {
            let j = choose|j: int| 0 <= j < n - 1 && (#[trigger] queries[j]).point.val() == x;
            assert(u.drop_last()[j] == x);
        }
    }
}

/// Queries are grouped where there are some, no two are about the same polynomial at the same
/// point, and no more of them than the limit are the first at their point.
pub proof fn law_grouped_result<'a, C: CurveAffine>(
    result: ProverIntermediateSetsResult<'a, C>,
    queries: Seq<ProverQuery<'a, C>>,
    limit: int,
)
    requires
        queries::grouped(result, queries, limit),
        limit >= 0,
    ensures
        (result matches ProverIntermediateSetsResult::Complete(Some(_))) <==> {
            &&& queries.len() > 0
            &&& !(exists|i: int, j: int|
                0 <= i < j < queries.len() && (#[trigger] queries[i]).commitment.identity == (
                #[trigger] queries[j]).commitment.identity && queries[i].point.val()
                    == queries[j].point.val())
            &&& Seq::new(
                queries.len(),
                |i: int|
                    if exists|j: int|
                        0 <= j < i && (#[trigger] queries[j]).point.val()
                            == queries[i].point.val() {
                        0int
                    } else {
                        1
                    },
            ).fold_left(0int, |a: int, b: int| a + b) <= limit
        },
        result matches ProverIntermediateSetsResult::Complete(Some(sets)) ==> sets.groups(queries),
{
    let ks = queries::keys(queries);
    law_repeated_queries(queries);
    if queries.len() > 0 {
        let last = queries.len() - 1;
        law_too_many_points(queries, last, limit);
        assert forall|k: int| 0 <= k < ks.len() && #[trigger] queries::too_many(ks, k, limit) implies queries::too_many(
            ks,
            last,
            limit,
        ) by {
            lemma_more_points(ks, k, last);
        }
    }
}

/// More queries have no fewer points.
proof fn lemma_more_points(ks: Seq<(int, int)>, k: int, l: int)
    requires
        0 <= k <= l < ks.len(),
    ensures
        queries::points(ks.take(k + 1)).len() <= queries::points(ks.take(l + 1)).len(),
    decreases l - k,
{
    if k < l {
        lemma_more_points(ks, k, l - 1);
        let s = queries::points_of(ks.take(l + 1));
        assert(s.drop_last() =~= queries::points_of(ks.take(l)));
        assert(ks.take(l - 1 + 1) =~= ks.take(l));
    }
}

} // verus!
