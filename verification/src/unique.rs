//! The division of a linear combination is determined by its terms.
use crate::ast;
use crate::ast::{AstView, FactorSide, IndexedLeaf};
use crate::partition;
use crate::partition::Piece;
use crate::pieces::RunFact;
use crate::shapes;
use crate::shapes::RunView;
use vstd::prelude::*;

verus! {

pub open spec fn same_run(a: RunFact, b: RunFact) -> bool {
    a.start == b.start && a.end == b.end && a.side == b.side
}

/// The two pieces stand for the same terms.
pub open spec fn same_place(a: Piece, b: Piece) -> bool {
    match a {
        Piece::Family { query, runs } => {
            &&& b is Family
            &&& b->query == query
            &&& b->runs.len() == runs.len()
            &&& forall|j: int| 0 <= j < runs.len() ==> same_run(#[trigger] runs[j], b->runs[j])
        },
        Piece::Shared { side, factor, plan, bodies, positions, plans, ids } => {
            &&& b is Shared
            &&& b->side == side
            &&& b->positions == positions
        },
        Piece::Term { position, plan, id } => b is Term && b->position == position,
    }
}

/// The pieces stand for the same terms, one by one.
pub open spec fn same_places(a: Seq<Piece>, b: Seq<Piece>) -> bool {
    &&& a.len() == b.len()
    &&& forall|g: int| 0 <= g < a.len() ==> same_place(#[trigger] a[g], b[g])
}

proof fn lemma_in_same(a: Piece, b: Piece, i: int)
    requires
        same_place(a, b),
    ensures
        partition::in_piece(a, i) <==> partition::in_piece(b, i),
{
    match a {
        Piece::Family { query, runs } => {
            if partition::in_piece(a, i) {
                let j = choose|j: int| 0 <= j < runs.len() && #[trigger] partition::in_run(runs[j], i);
                assert(same_run(runs[j], b->runs[j]));
                assert(partition::in_run(b->runs[j], i));
            }
            if partition::in_piece(b, i) {
                let j = choose|j: int| 0 <= j < b->runs.len() && #[trigger] partition::in_run(b->runs[j], i);
                assert(same_run(runs[j], b->runs[j]));
                assert(partition::in_run(runs[j], i));
            }
        },
        _ => {},
    }
}

proof fn lemma_in_sames(a: Seq<Piece>, b: Seq<Piece>)
    requires
        same_places(a, b),
    ensures
        forall|i: int| #[trigger] partition::in_pieces(a, i) <==> partition::in_pieces(b, i),
{
    assert forall|i: int| #[trigger] partition::in_pieces(a, i) <==> partition::in_pieces(b, i) by {
        if partition::in_pieces(a, i) {
            let g = choose|g: int| 0 <= g < a.len() && partition::in_piece(#[trigger] a[g], i);
            assert(same_place(a[g], b[g]));
            lemma_in_same(a[g], b[g], i);
            assert(partition::in_piece(b[g], i));
        }
        if partition::in_pieces(b, i) {
            let g = choose|g: int| 0 <= g < b.len() && partition::in_piece(#[trigger] b[g], i);
            assert(same_place(a[g], b[g]));
            lemma_in_same(a[g], b[g], i);
            assert(partition::in_piece(a[g], i));
        }
    }
}

proof fn lemma_same_concat(a: Seq<Piece>, b: Seq<Piece>, c: Seq<Piece>, d: Seq<Piece>)
    requires
        same_places(a, c),
        same_places(b, d),
    ensures
        same_places(a + b, c + d),
{
    assert forall|g: int| 0 <= g < (a + b).len() implies same_place(
        #[trigger] (a + b)[g],
        (c + d)[g],
    ) by {
        if g < a.len() {
            assert(same_place(a[g], c[g]));
        } else {
            assert(same_place(b[g - a.len()], d[g - a.len()]));
        }
    }
}

spec fn increasing(s: Seq<int>) -> bool {
    forall|i: int, j: int| 0 <= i < j < s.len() ==> #[trigger] s[i] < #[trigger] s[j]
}

/// Increasing sequences of the same numbers are the same.
proof fn lemma_increasing_same(s: Seq<int>, t: Seq<int>)
    requires
        increasing(s),
        increasing(t),
        forall|x: int| #[trigger] s.contains(x) <==> t.contains(x),
    ensures
        s == t,
    decreases s.len(),
{
    if s.len() == 0 {
        if t.len() > 0 {
            assert(t.contains(t[0]));
            assert(s.contains(t[0]));
        }
        assert(s =~= t);
    } else {
        let x = s.last();
        assert(s[s.len() - 1] == x);
        assert(s.contains(x));
        assert(t.contains(x));
        let y = t.last();
        assert(t[t.len() - 1] == y);
        assert(t.contains(y));
        assert(s.contains(y));
        let i = choose|i: int| 0 <= i < t.len() && t[i] == x;
        let j = choose|j: int| 0 <= j < s.len() && s[j] == y;
        if i < t.len() - 1 {
            assert(t[i] < t[t.len() - 1]);
        }
        if j < s.len() - 1 {
            assert(s[j] < s[s.len() - 1]);
        }
        assert(x == y);
        let (a, b) = (s.drop_last(), t.drop_last());
        assert forall|z: int| #[trigger] a.contains(z) <==> b.contains(z) by {
            if a.contains(z) {
                let k = choose|k: int| 0 <= k < a.len() && a[k] == z;
                assert(s[k] == z && s[k] < s[s.len() - 1]);
                assert(s.contains(z));
                let l = choose|l: int| 0 <= l < t.len() && t[l] == z;
                assert(b[l] == z);
            }
            if b.contains(z) {
                let k = choose|k: int| 0 <= k < b.len() && b[k] == z;
                assert(t[k] == z && t[k] < t[t.len() - 1]);
                assert(t.contains(z));
                assert(s.contains(z));
                let l = choose|l: int| 0 <= l < s.len() && s[l] == z;
                assert(a[l] == z);
            }
        }
        lemma_increasing_same(a, b);
        assert(s =~= a.push(x));
        assert(t =~= b.push(y));
    }
}

/// A selector determines its column, its combination and its root.
proof fn lemma_selector_unique(
    a: AstView,
    q: IndexedLeaf,
    n: int,
    r: int,
    t: IndexedLeaf,
    m: int,
    s: int,
    p: int,
)
    requires
        p > 2,
        shapes::is_selector(a, q, n, r, p),
        shapes::is_selector(a, t, m, s, p),
    ensures
        q == t,
        n == m,
        r == s,
{
    let (rs, ts) = (shapes::other_roots(n as nat, r, p), shapes::other_roots(m as nat, s, p));
    shapes::lemma_root_product_injective(q, rs, t, ts, p);
    shapes::lemma_other_roots(n as nat, r, p);
    shapes::lemma_other_roots(m as nat, s, p);
    if r < s {
        assert(rs[r - 1] == (r + 1) % p);
        assert(ts[r - 1] == r % p);
        shapes::lemma_consecutive(r, p);
    }
    if s < r {
        assert(ts[s - 1] == (s + 1) % p);
        assert(rs[s - 1] == s % p);
        shapes::lemma_consecutive(s, p);
    }
}

/// The term at the start of a run has a selector on the run's side.
proof fn lemma_run_start(views: Seq<AstView>, run: RunView, p: int)
    requires
        shapes::is_run(views, run, p),
    ensures
        shapes::selector_on(views[run.start], run.side, p),
        shapes::is_selector(ast::factor_of(views[run.start], run.side), run.query, run.len, run.root, p),
{
    assert(ast::has_factor(
        views[run.start],
        run.side,
        shapes::selector_node(run.query, run.len, run.root, p),
    ));
    assert(shapes::is_selector(
        ast::factor_of(views[run.start], run.side),
        run.query,
        run.len,
        run.root,
        p,
    ));
}

/// Runs that start at the same term are the same.
proof fn lemma_run_unique(views: Seq<AstView>, a: RunView, b: RunView, p: int)
    requires
        p > 2,
        shapes::is_run(views, a, p),
        shapes::is_run(views, b, p),
        a.start == b.start,
    ensures
        a == b,
{
    lemma_run_start(views, a, p);
    lemma_run_start(views, b, p);
    assert(a.side == b.side);
    lemma_selector_unique(
        ast::factor_of(views[a.start], a.side),
        a.query,
        a.len,
        a.root,
        b.query,
        b.len,
        b.root,
        p,
    );
    let factor = shapes::selector_node(a.query, a.len, a.root, p);
    if a.end < b.end {
        assert(ast::has_factor(views[a.end], a.side, factor));
    }
    if b.end < a.end {
        assert(ast::has_factor(views[b.end], a.side, factor));
    }
}

/// A scan starts its next run no later than another does.
proof fn lemma_scan_start(views: Seq<AstView>, a: Seq<RunView>, b: Seq<RunView>, k: int, p: int)
    requires
        shapes::is_scan(views, views.len() as int, a, p),
        shapes::is_scan(views, views.len() as int, b, p),
        0 <= k < a.len(),
        k <= b.len(),
        forall|i: int| 0 <= i < k ==> #[trigger] a[i] == b[i],
    ensures
        k < b.len(),
        b[k].start <= a[k].start,
{
    let run = a[k];
    assert(shapes::is_run(views, run, p));
    lemma_run_start(views, run, p);
    let s = run.start;
    // Some run of the other scan holds the term, and none of the first does.
    if forall|l: int| 0 <= l < b.len() ==> !((#[trigger] b[l]).start <= s < b[l].end) {
        assert(!shapes::selector_on(views[s], FactorSide::Left, p) && !shapes::selector_on(
            views[s],
            FactorSide::Right,
            p,
        ));
        assert(false);
    }
    let l = choose|l: int| 0 <= l < b.len() && (#[trigger] b[l]).start <= s < b[l].end;
    if l < k {
        assert(a[l] == b[l]);
        assert(a[l].end <= a[k].start);
    }
    if k < l {
        assert(shapes::is_run(views, b[k], p));
        assert(b[k].end <= b[l].start);
    }
}

/// There is one scan of the terms.
proof fn lemma_scan_unique(views: Seq<AstView>, a: Seq<RunView>, b: Seq<RunView>, p: int)
    requires
        p > 2,
        shapes::is_scan(views, views.len() as int, a, p),
        shapes::is_scan(views, views.len() as int, b, p),
    ensures
        a == b,
{
    lemma_scan_prefix(views, a, b, a.len() as int, p);
    if a.len() < b.len() {
        lemma_scan_start(views, b, a, a.len() as int, p);
    }
    assert(a =~= b);
}

proof fn lemma_scan_prefix(views: Seq<AstView>, a: Seq<RunView>, b: Seq<RunView>, k: int, p: int)
    requires
        p > 2,
        shapes::is_scan(views, views.len() as int, a, p),
        shapes::is_scan(views, views.len() as int, b, p),
        0 <= k <= a.len(),
    ensures
        k <= b.len(),
        forall|i: int| 0 <= i < k ==> #[trigger] a[i] == b[i],
    decreases k,
{
    if k > 0 {
        let l = k - 1;
        lemma_scan_prefix(views, a, b, l, p);
        lemma_scan_start(views, a, b, l, p);
        lemma_scan_start(views, b, a, l, p);
        assert(shapes::is_run(views, a[l], p) && shapes::is_run(views, b[l], p));
        lemma_run_unique(views, a[l], b[l], p);
    }
}

/// Where the first run of a combination stands.
spec fn first_run(runs: Seq<RunView>, query: IndexedLeaf, len: int) -> int {
    choose|k: int|
        0 <= k < runs.len() && shapes::in_family(#[trigger] runs[k], query, len) && forall|m: int|
            0 <= m < k ==> !shapes::in_family(#[trigger] runs[m], query, len)
}

proof fn lemma_first_run(runs: Seq<RunView>, query: IndexedLeaf, len: int, k: int)
    requires
        0 <= k < runs.len(),
        shapes::in_family(runs[k], query, len),
    ensures
        0 <= first_run(runs, query, len) <= k,
        shapes::in_family(runs[first_run(runs, query, len)], query, len),
    decreases k,
{
    if exists|m: int| 0 <= m < k && shapes::in_family(#[trigger] runs[m], query, len) {
        let m = choose|m: int| 0 <= m < k && shapes::in_family(#[trigger] runs[m], query, len);
        lemma_first_run(runs, query, len, m);
    } else {
        let f = first_run(runs, query, len);
        assert(0 <= f < runs.len() && shapes::in_family(runs[f], query, len) && forall|m: int|
            0 <= m < f ==> !shapes::in_family(#[trigger] runs[m], query, len));
        if k < f {
            assert(!shapes::in_family(runs[k], query, len));
        }
    }
}

spec fn first_runs(families: Seq<Piece>, runs: Seq<RunView>) -> Seq<int> {
    Seq::new(
        families.len(),
        |f: int| first_run(runs, families[f]->query, families[f]->runs.len() as int),
    )
}

/// A listed family has a run.
proof fn lemma_family_starts(families: Seq<Piece>, runs: Seq<RunView>, f: int)
    requires
        partition::families_listed(families, runs),
        0 <= f < families.len(),
    ensures
        0 <= first_runs(families, runs)[f] < runs.len(),
        shapes::in_family(
            runs[first_runs(families, runs)[f]],
            families[f]->query,
            families[f]->runs.len() as int,
        ),
{
    let (query, len) = (families[f]->query, families[f]->runs.len() as int);
    assert(shapes::complete_family(runs, query, len));
    assert(shapes::has_run(runs, query, len, 1));
    let k = choose|k: int|
        0 <= k < runs.len() && shapes::in_family(#[trigger] runs[k], query, len) && runs[k].root == 1;
    lemma_first_run(runs, query, len, k);
}

proof fn lemma_first_increasing(families: Seq<Piece>, runs: Seq<RunView>)
    requires
        partition::families_listed(families, runs),
    ensures
        increasing(first_runs(families, runs)),
{
    let s = first_runs(families, runs);
    assert forall|f: int, g: int| 0 <= f < g < s.len() implies #[trigger] s[f] < #[trigger] s[g] by {
        let (a, b) = (families[f], families[g]);
        let (x, y) = (a->runs.len() as int, b->runs.len() as int);
        assert(shapes::appears_first(runs, a->query, x, b->query, y));
        let k = choose|k: int|
            0 <= k < runs.len() && shapes::in_family(#[trigger] runs[k], a->query, x) && forall|m: int|
                0 <= m <= k ==> !shapes::in_family(#[trigger] runs[m], b->query, y);
        lemma_first_run(runs, a->query, x, k);
        lemma_family_starts(families, runs, g);
        if s[g] <= k {
            assert(!shapes::in_family(runs[s[g]], b->query, y));
        }
    }
}

proof fn lemma_first_member(a: Seq<Piece>, b: Seq<Piece>, runs: Seq<RunView>, x: int)
    requires
        partition::families_listed(a, runs),
        partition::families_listed(b, runs),
        first_runs(a, runs).contains(x),
    ensures
        first_runs(b, runs).contains(x),
{
    let s = first_runs(a, runs);
    let f = choose|f: int| 0 <= f < s.len() && s[f] == x;
    let (query, len) = (a[f]->query, a[f]->runs.len() as int);
    assert(shapes::complete_family(runs, query, len));
    let g = choose|g: int|
        0 <= g < b.len() && (#[trigger] b[g])->query == query && b[g]->runs.len() == len;
    assert(first_runs(b, runs)[g] == x);
}

/// The runs of a complete combination are determined by their roots.
proof fn lemma_family_runs(a: Seq<Piece>, b: Seq<Piece>, runs: Seq<RunView>, f: int, j: int)
    requires
        partition::families_listed(a, runs),
        partition::families_listed(b, runs),
        0 <= f < a.len(),
        f < b.len(),
        b[f]->query == a[f]->query,
        b[f]->runs.len() == a[f]->runs.len(),
        0 <= j < a[f]->runs.len(),
    ensures
        same_run(a[f]->runs[j], b[f]->runs[j]),
{
    let (query, len) = (a[f]->query, a[f]->runs.len() as int);
    let (x, y) = (
        partition::fact_view(query, len, j, a[f]->runs[j]),
        partition::fact_view(query, len, j, b[f]->runs[j]),
    );
    assert(shapes::complete_family(runs, query, len));
    assert(runs.contains(x) && runs.contains(y));
    let k = choose|k: int| 0 <= k < runs.len() && runs[k] == x;
    let l = choose|l: int| 0 <= l < runs.len() && runs[l] == y;
    lemma_same_root(runs, query, len, k, l);
}

proof fn lemma_same_root(runs: Seq<RunView>, query: IndexedLeaf, len: int, k: int, l: int)
    requires
        shapes::complete_family(runs, query, len),
        0 <= k < runs.len(),
        0 <= l < runs.len(),
        shapes::in_family(runs[k], query, len),
        shapes::in_family(runs[l], query, len),
        runs[k].root == runs[l].root,
    ensures
        k == l,
{
}

proof fn lemma_firsts_same(a: Seq<Piece>, b: Seq<Piece>, runs: Seq<RunView>)
    requires
        partition::families_listed(a, runs),
        partition::families_listed(b, runs),
    ensures
        first_runs(a, runs) == first_runs(b, runs),
{
    let (s, t) = (first_runs(a, runs), first_runs(b, runs));
    lemma_first_increasing(a, runs);
    lemma_first_increasing(b, runs);
    assert forall|x: int| #[trigger] s.contains(x) <==> t.contains(x) by {
        if s.contains(x) {
            lemma_first_member(a, b, runs, x);
        }
        if t.contains(x) {
            lemma_first_member(b, a, runs, x);
        }
    }
    lemma_increasing_same(s, t);
}

/// The selector families are determined by the terms.
proof fn lemma_families_unique(a: Seq<Piece>, b: Seq<Piece>, terms: Seq<AstView>, p: int)
    requires
        p > 2,
        partition::family_pieces(a, terms, p),
        partition::family_pieces(b, terms, p),
    ensures
        same_places(a, b),
{
    let runs = choose|runs: Seq<RunView>|
        shapes::is_scan(terms, terms.len() as int, runs, p) && #[trigger] partition::families_listed(a, runs);
    let others = choose|runs: Seq<RunView>|
        shapes::is_scan(terms, terms.len() as int, runs, p) && #[trigger] partition::families_listed(b, runs);
    lemma_scan_unique(terms, runs, others, p);
    lemma_families_same(a, b, runs);
}

proof fn lemma_families_same(a: Seq<Piece>, b: Seq<Piece>, runs: Seq<RunView>)
    requires
        partition::families_listed(a, runs),
        partition::families_listed(b, runs),
    ensures
        same_places(a, b),
{
    let (s, t) = (first_runs(a, runs), first_runs(b, runs));
    lemma_firsts_same(a, b, runs);
    assert(s.len() == a.len() && t.len() == b.len());
    assert forall|f: int| 0 <= f < a.len() implies same_place(#[trigger] a[f], b[f]) by {
        lemma_family_starts(a, runs, f);
        lemma_family_starts(b, runs, f);
        assert(s[f] == t[f]);
        assert(a[f] is Family && b[f] is Family);
        assert forall|j: int| 0 <= j < a[f]->runs.len() implies same_run(
            #[trigger] a[f]->runs[j],
            b[f]->runs[j],
        ) by {
            lemma_family_runs(a, b, runs, f, j);
        }
    }
}

spec fn firsts(list: Seq<Piece>) -> Seq<int> {
    Seq::new(list.len(), |g: int| list[g]->positions[0])
}

/// Two terms of a group have the factor in common.
proof fn lemma_group_shares(
    before: Seq<Piece>,
    list: Seq<Piece>,
    terms: Seq<AstView>,
    side: FactorSide,
    g: int,
    i: int,
    j: int,
)
    requires
        partition::side_pieces(before, list, terms, side),
        0 <= g < list.len(),
        partition::in_piece(list[g], i),
        partition::in_piece(list[g], j),
    ensures
        partition::share_factor(terms, i, j, side),
        0 <= i < terms.len(),
        !partition::in_pieces(before, i),
        list[g]->positions[0] <= i,
        partition::in_piece(list[g], list[g]->positions[0]),
{
    assert(list[g] is Shared);
    let positions = list[g]->positions;
    let k = choose|k: int| 0 <= k < positions.len() && positions[k] == i;
    let l = choose|l: int| 0 <= l < positions.len() && positions[l] == j;
    assert(ast::has_factor(
        terms[list[g]->positions[k]],
        side,
        ast::factor_of(terms[list[g]->positions[0]], side),
    ));
    assert(ast::has_factor(
        terms[list[g]->positions[l]],
        side,
        ast::factor_of(terms[list[g]->positions[0]], side),
    ));
    if k > 0 {
        assert(list[g]->positions[0] < list[g]->positions[k]);
    }
    assert(positions[0] == list[g]->positions[0]);
}

/// A group starts at the same term in another division.
proof fn lemma_group_start(
    a: Seq<Piece>,
    b: Seq<Piece>,
    x: Seq<Piece>,
    y: Seq<Piece>,
    terms: Seq<AstView>,
    side: FactorSide,
    g: int,
) -> (h: int)
    requires
        partition::side_pieces(a, x, terms, side),
        partition::side_pieces(b, y, terms, side),
        forall|i: int| #[trigger] partition::in_pieces(a, i) <==> partition::in_pieces(b, i),
        0 <= g < x.len(),
    ensures
        0 <= h < y.len(),
        y[h]->positions[0] == x[g]->positions[0],
{
    assert(x[g] is Shared && x[g]->positions.len() >= 2);
    let (f, s) = (x[g]->positions[0], x[g]->positions[1]);
    assert(f < s);
    assert(partition::in_piece(x[g], f) && partition::in_piece(x[g], s));
    lemma_group_shares(a, x, terms, side, g, f, s);
    lemma_group_shares(a, x, terms, side, g, s, f);
    assert(partition::share_factor(terms, f, s, side));
    let h = choose|h: int|
        0 <= h < y.len() && #[trigger] partition::in_piece(y[h], f) && partition::in_piece(y[h], s);
    let t = y[h]->positions[0];
    lemma_group_shares(b, y, terms, side, h, f, f);
    assert(partition::in_piece(y[h], t));
    lemma_group_shares(b, y, terms, side, h, t, f);
    if t < f {
        assert(partition::share_factor(terms, t, f, side));
        assert(!partition::in_pieces(a, t) && !partition::in_pieces(a, f));
        let k = choose|k: int|
            0 <= k < x.len() && #[trigger] partition::in_piece(x[k], t) && partition::in_piece(x[k], f);
        if k < g {
            assert(!partition::in_piece(x[g], f));
        }
        if g < k {
            assert(!partition::in_piece(x[k], f));
        }
        lemma_group_shares(a, x, terms, side, g, t, f);
    }
    h
}

/// The members of groups that start at the same term are the same.
proof fn lemma_group_members(
    a: Seq<Piece>,
    b: Seq<Piece>,
    x: Seq<Piece>,
    y: Seq<Piece>,
    terms: Seq<AstView>,
    side: FactorSide,
    g: int,
    h: int,
    i: int,
)
    requires
        partition::side_pieces(a, x, terms, side),
        partition::side_pieces(b, y, terms, side),
        forall|i: int| #[trigger] partition::in_pieces(a, i) <==> partition::in_pieces(b, i),
        0 <= g < x.len(),
        0 <= h < y.len(),
        y[h]->positions[0] == x[g]->positions[0],
        partition::in_piece(x[g], i),
    ensures
        partition::in_piece(y[h], i),
{
    let f = x[g]->positions[0];
    lemma_group_shares(a, x, terms, side, g, i, i);
    lemma_group_shares(a, x, terms, side, g, f, i);
    assert(y[h] is Shared && y[h]->positions.len() >= 2);
    assert(partition::in_piece(y[h], y[h]->positions[0]));
    if i != f {
        assert(partition::share_factor(terms, f, i, side));
        assert(!partition::in_pieces(b, f) && !partition::in_pieces(b, i));
        let k = choose|k: int|
            0 <= k < y.len() && #[trigger] partition::in_piece(y[k], f) && partition::in_piece(y[k], i);
        if k < h {
            assert(!partition::in_piece(y[h], f));
        }
        if h < k {
            assert(!partition::in_piece(y[k], f));
        }
    }
}

/// The groups of terms with a common factor on one side are determined by the terms that
/// are left.
proof fn lemma_side_unique(
    a: Seq<Piece>,
    b: Seq<Piece>,
    x: Seq<Piece>,
    y: Seq<Piece>,
    terms: Seq<AstView>,
    side: FactorSide,
)
    requires
        partition::side_pieces(a, x, terms, side),
        partition::side_pieces(b, y, terms, side),
        forall|i: int| #[trigger] partition::in_pieces(a, i) <==> partition::in_pieces(b, i),
    ensures
        same_places(x, y),
{
    let (s, t) = (firsts(x), firsts(y));
    assert(increasing(s)) by {
        assert forall|g: int, h: int| 0 <= g < h < s.len() implies #[trigger] s[g]
            < #[trigger] s[h] by {
            assert(x[g]->positions[0] < x[h]->positions[0]);
        }
    }
    assert(increasing(t)) by {
        assert forall|g: int, h: int| 0 <= g < h < t.len() implies #[trigger] t[g]
            < #[trigger] t[h] by {
            assert(y[g]->positions[0] < y[h]->positions[0]);
        }
    }
    assert forall|v: int| #[trigger] s.contains(v) <==> t.contains(v) by {
        if s.contains(v) {
            let g = choose|g: int| 0 <= g < s.len() && s[g] == v;
            let h = lemma_group_start(a, b, x, y, terms, side, g);
            assert(t[h] == v);
        }
        if t.contains(v) {
            let g = choose|g: int| 0 <= g < t.len() && t[g] == v;
            let h = lemma_group_start(b, a, y, x, terms, side, g);
            assert(s[h] == v);
        }
    }
    lemma_increasing_same(s, t);
    assert(x.len() == y.len());
    assert forall|g: int| 0 <= g < x.len() implies same_place(#[trigger] x[g], y[g]) by {
        assert(s[g] == t[g]);
        assert(x[g] is Shared && y[g] is Shared);
        let (u, v) = (x[g]->positions, y[g]->positions);
        assert(increasing(u)) by {
            assert forall|k: int, l: int| 0 <= k < l < u.len() implies #[trigger] u[k]
                < #[trigger] u[l] by {
                assert(x[g]->positions[k] < x[g]->positions[l]);
            }
        }
        assert(increasing(v)) by {
            assert forall|k: int, l: int| 0 <= k < l < v.len() implies #[trigger] v[k]
                < #[trigger] v[l] by {
                assert(y[g]->positions[k] < y[g]->positions[l]);
            }
        }
        assert forall|i: int| #[trigger] u.contains(i) <==> v.contains(i) by {
            if u.contains(i) {
                assert(partition::in_piece(x[g], i));
                lemma_group_members(a, b, x, y, terms, side, g, g, i);
            }
            if v.contains(i) {
                assert(partition::in_piece(y[g], i));
                lemma_group_members(b, a, y, x, terms, side, g, g, i);
            }
        }
        lemma_increasing_same(u, v);
    }
}

pub proof fn lemma_shared_unique(
    a: Seq<Piece>,
    b: Seq<Piece>,
    left: Seq<Piece>,
    right: Seq<Piece>,
    other_left: Seq<Piece>,
    other_right: Seq<Piece>,
    terms: Seq<AstView>,
)
    requires
        same_places(a, b),
        partition::shared_pieces(a, left, right, terms),
        partition::shared_pieces(b, other_left, other_right, terms),
    ensures
        same_places(left, other_left),
        same_places(right, other_right),
{
    lemma_in_sames(a, b);
    lemma_side_unique(a, b, left, other_left, terms, FactorSide::Left);
    lemma_same_concat(a, left, b, other_left);
    lemma_in_sames(a + left, b + other_left);
    lemma_side_unique(
        a + left,
        b + other_left,
        right,
        other_right,
        terms,
        FactorSide::Right,
    );
}

/// The positions of single terms, in increasing order.
spec fn places_of(list: Seq<Piece>, from_last: bool) -> Seq<int> {
    Seq::new(
        list.len(),
        |g: int|
            if from_last {
                list[list.len() - 1 - g]->position
            } else {
                list[g]->position
            },
    )
}

proof fn lemma_places_increasing(
    before: Seq<Piece>,
    list: Seq<Piece>,
    terms: Seq<AstView>,
    from_last: bool,
)
    requires
        partition::single_pieces(before, list, terms, from_last),
    ensures
        increasing(places_of(list, from_last)),
        forall|i: int| #[trigger]
            places_of(list, from_last).contains(i) <==> 0 <= i < terms.len() && !partition::in_pieces(
                before,
                i,
            ),
{
    let s = places_of(list, from_last);
    let n = list.len() as int;
    assert forall|g: int, h: int| 0 <= g < h < s.len() implies #[trigger] s[g]
        < #[trigger] s[h] by {
        if from_last {
            let (x, y) = (list[n - 1 - h], list[n - 1 - g]);
            assert(x->position > y->position);
        } else {
            let (x, y) = (list[g], list[h]);
            assert(x->position < y->position);
        }
    }
    assert forall|i: int| #[trigger] s.contains(i) <==> 0 <= i < terms.len() && !partition::in_pieces(
        before,
        i,
    ) by {
        if s.contains(i) {
            let g = choose|g: int| 0 <= g < s.len() && s[g] == i;
            let piece = if from_last {
                list[n - 1 - g]
            } else {
                list[g]
            };
            assert(piece is Term);
        }
        if 0 <= i < terms.len() && !partition::in_pieces(before, i) {
            assert(partition::in_pieces(list, i));
            let g = choose|g: int| 0 <= g < list.len() && partition::in_piece(#[trigger] list[g], i);
            assert(list[g] is Term);
            if from_last {
                assert(s[n - 1 - g] == i);
            } else {
                assert(s[g] == i);
            }
        }
    }
}

/// The single terms are determined by the terms that are left.
pub proof fn lemma_singles_unique(
    a: Seq<Piece>,
    b: Seq<Piece>,
    x: Seq<Piece>,
    y: Seq<Piece>,
    terms: Seq<AstView>,
    from_last: bool,
)
    requires
        same_places(a, b),
        partition::single_pieces(a, x, terms, from_last),
        partition::single_pieces(b, y, terms, from_last),
    ensures
        same_places(x, y),
{
    lemma_in_sames(a, b);
    lemma_places_increasing(a, x, terms, from_last);
    lemma_places_increasing(b, y, terms, from_last);
    let (s, t) = (places_of(x, from_last), places_of(y, from_last));
    assert forall|i: int| #[trigger] s.contains(i) <==> t.contains(i) by {
        assert(partition::in_pieces(a, i) <==> partition::in_pieces(b, i));
    }
    lemma_increasing_same(s, t);
    let n = x.len() as int;
    assert(n == y.len());
    assert forall|g: int| 0 <= g < n implies same_place(#[trigger] x[g], y[g]) by {
        assert(x[g] is Term && y[g] is Term);
        if from_last {
            assert(s[n - 1 - g] == t[n - 1 - g]);
        } else {
            assert(s[g] == t[g]);
        }
    }
}

/// There is one division of the terms.
pub proof fn lemma_division_unique(
    families: Seq<Piece>,
    left: Seq<Piece>,
    right: Seq<Piece>,
    singles: Seq<Piece>,
    f: Seq<Piece>,
    l: Seq<Piece>,
    r: Seq<Piece>,
    s: Seq<Piece>,
    terms: Seq<AstView>,
    p: int,
)
    requires
        p > 2,
        partition::is_division(families, left, right, singles, terms, p),
        partition::is_division(f, l, r, s, terms, p),
    ensures
        same_places(families + (left + right) + singles, f + (l + r) + s),
{
    lemma_families_unique(families, f, terms, p);
    lemma_shared_unique(families, f, left, right, l, r, terms);
    lemma_same_concat(left, right, l, r);
    lemma_same_concat(families, left + right, f, l + r);
    lemma_singles_unique(
        families + (left + right),
        f + (l + r),
        singles,
        s,
        terms,
        true,
    );
    lemma_same_concat(families + (left + right), singles, f + (l + r), s);
}

/// There is one factoring of the bodies of a selector.
pub proof fn lemma_factoring_unique(
    left: Seq<Piece>,
    right: Seq<Piece>,
    singles: Seq<Piece>,
    l: Seq<Piece>,
    r: Seq<Piece>,
    s: Seq<Piece>,
    terms: Seq<AstView>,
)
    requires
        partition::is_factoring(left, right, singles, terms),
        partition::is_factoring(l, r, s, terms),
    ensures
        same_places((left + right) + singles, (l + r) + s),
{
    let nothing = Seq::<Piece>::empty();
    lemma_shared_unique(nothing, nothing, left, right, l, r, terms);
    lemma_same_concat(left, right, l, r);
    lemma_singles_unique(left + right, l + r, singles, s, terms, false);
    lemma_same_concat(left + right, singles, l + r, s);
}

/// Bodies are factored only where some have a factor in common.
pub proof fn lemma_factoring_shares(
    left: Seq<Piece>,
    right: Seq<Piece>,
    singles: Seq<Piece>,
    terms: Seq<AstView>,
)
    requires
        partition::is_factoring(left, right, singles, terms),
    ensures
        !partition::nothing_shared(terms),
{
    let nothing = Seq::<Piece>::empty();
    let (before, list, side) = if left.len() > 0 {
        (nothing, left, FactorSide::Left)
    } else {
        (nothing + left, right, FactorSide::Right)
    };
    assert(partition::side_pieces(before, list, terms, side));
    assert(list[0] is Shared && list[0]->positions.len() >= 2);
    let (i, j) = (list[0]->positions[0], list[0]->positions[1]);
    assert(i < j);
    assert(partition::in_piece(list[0], i) && partition::in_piece(list[0], j));
    lemma_group_shares(before, list, terms, side, 0, i, j);
    lemma_group_shares(before, list, terms, side, 0, j, i);
    assert(partition::share_factor(terms, i, j, side));
}

} // verus!
