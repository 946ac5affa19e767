//! The scalars of an evaluation plan: literals of the field, and challenges that
//! are known only when the plan is run.
use crate::arith;
use crate::field::Field;
use crate::poly;
use vstd::arithmetic::power::*;
use vstd::prelude::*;

verus! {

/// Transcript challenges used by the quotient evaluator's symbolic plan.
#[derive(Clone, Copy, Debug, PartialEq, Eq, Structural)]
pub enum EvaluationChallenge {
    Theta,
    Beta,
    Gamma,
    Y,
}

/// Opaque, exact semantic identity for one registered polynomial.
#[derive(Clone, Copy, Debug, PartialEq, Eq, Structural)]
pub struct EvaluationPolyTag {
    pub role: usize,
    pub first: usize,
    pub second: usize,
}

impl EvaluationPolyTag {
    /// Creates a collision-free tag from an exact role and two role-specific
    /// indices.
    pub fn new(role: usize, first: usize, second: usize) -> (r: Self)
        ensures
            r.role == role,
            r.first == first,
            r.second == second,
    {
        EvaluationPolyTag { role, first, second }
    }
}

pub const EVALUATION_CHALLENGE_COUNT: usize = 4;

/// Current-proof values for [`EvaluationChallenge`] operands.
#[derive(Clone, Copy, Debug)]
pub struct EvaluationChallenges<F> {
    pub theta: F,
    pub beta: F,
    pub gamma: F,
    pub y: F,
}

impl<F> EvaluationChallenges<F> {
    pub fn new(theta: F, beta: F, gamma: F, y: F) -> (r: Self)
        ensures
            r.theta == theta,
            r.beta == beta,
            r.gamma == gamma,
            r.y == y,
    {
        EvaluationChallenges { theta, beta, gamma, y }
    }
}

impl<F: Field> EvaluationChallenges<F> {
    pub open spec fn view(self) -> ChallengeView {
        ChallengeView {
            theta: self.theta.val(),
            beta: self.beta.val(),
            gamma: self.gamma.val(),
            y: self.y.val(),
        }
    }
}

/// The integers that the challenges stand for.
pub struct ChallengeView {
    pub theta: int,
    pub beta: int,
    pub gamma: int,
    pub y: int,
}

impl ChallengeView {
    pub open spec fn of(self, challenge: EvaluationChallenge) -> int {
        match challenge {
            EvaluationChallenge::Theta => self.theta,
            EvaluationChallenge::Beta => self.beta,
            EvaluationChallenge::Gamma => self.gamma,
            EvaluationChallenge::Y => self.y,
        }
    }
}

impl EvaluationChallenge {
    pub open spec fn spec_index(self) -> int {
        match self {
            EvaluationChallenge::Theta => 0,
            EvaluationChallenge::Beta => 1,
            EvaluationChallenge::Gamma => 2,
            EvaluationChallenge::Y => 3,
        }
    }

    pub fn index(self) -> (r: usize)
        ensures
            r == self.spec_index(),
            r < 4,
    {
        match self {
            EvaluationChallenge::Theta => 0,
            EvaluationChallenge::Beta => 1,
            EvaluationChallenge::Gamma => 2,
            EvaluationChallenge::Y => 3,
        }
    }

    pub fn value<F: Field>(self, challenges: &EvaluationChallenges<F>) -> (r: F)
        ensures
            r.val() == challenges.view().of(self),
    {
        match self {
            EvaluationChallenge::Theta => challenges.theta,
            EvaluationChallenge::Beta => challenges.beta,
            EvaluationChallenge::Gamma => challenges.gamma,
            EvaluationChallenge::Y => challenges.y,
        }
    }
}

/// A scalar operand of a plan. The variant is assigned from where the scalar comes
/// from; challenge operands are never inferred from field equality.
#[derive(Clone, Copy, Debug)]
pub enum PlanScalar<F> {
    Literal(F),
    Challenge(EvaluationChallenge),
    ScaledChallenge { challenge: EvaluationChallenge, factor: F },
    ChallengePower { challenge: EvaluationChallenge, exponent: u32 },
}

/// What a [`PlanScalar`] is, with field elements as integers.
pub enum ScalarView {
    Literal(int),
    Challenge(EvaluationChallenge),
    ScaledChallenge(EvaluationChallenge, int),
    ChallengePower(EvaluationChallenge, nat),
}

/// The value of a scalar once the challenges are known.
pub open spec fn scalar_value(s: ScalarView, ch: ChallengeView, p: int) -> int {
    match s {
        ScalarView::Literal(v) => v,
        ScalarView::Challenge(c) => ch.of(c),
        ScalarView::ScaledChallenge(c, f) => (ch.of(c) * f) % p,
        ScalarView::ChallengePower(c, e) => pow(ch.of(c), e) % p,
    }
}

impl<F: Field> PlanScalar<F> {
    pub open spec fn view(self) -> ScalarView {
        match self {
            PlanScalar::Literal(v) => ScalarView::Literal(v.val()),
            PlanScalar::Challenge(c) => ScalarView::Challenge(c),
            PlanScalar::ScaledChallenge { challenge, factor } => ScalarView::ScaledChallenge(
                challenge,
                factor.val(),
            ),
            PlanScalar::ChallengePower { challenge, exponent } => ScalarView::ChallengePower(
                challenge,
                exponent as nat,
            ),
        }
    }

    /// Whether two scalars are the same descriptor. Descriptors of different
    /// variants differ even where their values would agree.
    pub fn equals(&self, other: &Self) -> (r: bool)
        ensures
            r <==> self.view() == other.view(),
    {
        match (self, other) {
            (PlanScalar::Literal(a), PlanScalar::Literal(b)) => a.equals(b),
            (PlanScalar::Challenge(a), PlanScalar::Challenge(b)) => *a == *b,
            (
                PlanScalar::ScaledChallenge { challenge: a, factor: f },
                PlanScalar::ScaledChallenge { challenge: b, factor: g },
            ) => *a == *b && f.equals(g),
            (
                PlanScalar::ChallengePower { challenge: a, exponent: e },
                PlanScalar::ChallengePower { challenge: b, exponent: f },
            ) => *a == *b && *e == *f,
            _ => false,
        }
    }
}

/// The position of a scalar among the descriptors of its plan.
#[derive(Clone, Copy, Debug, PartialEq, Eq, Structural)]
pub struct ScalarId(pub u32);

impl ScalarId {
    pub open spec fn at(self) -> int {
        self.0 as int
    }

    pub fn from_index(index: usize) -> (r: Option<Self>)
        ensures
            r is Some <==> index <= u32::MAX,
            r matches Some(id) ==> id.at() == index,
    {
        if index <= u32::MAX as usize {
            Some(ScalarId(index as u32))
        } else {
            None
        }
    }

    pub fn index(self) -> (r: usize)
        ensures
            r == self.at(),
    {
        self.0 as usize
    }
}

/// The descriptors of `s`, viewed.
pub open spec fn scalar_views<F: Field>(s: Seq<PlanScalar<F>>) -> Seq<ScalarView> {
    Seq::new(s.len(), |i: int| s[i].view())
}

/// Collects the scalars of a plan, each descriptor once.
pub struct PlanScalarInterner<F> {
    pub descriptors: Vec<PlanScalar<F>>,
    pub literals: Vec<(F, ScalarId)>,
    pub challenges: Vec<Option<ScalarId>>,
    pub scaled_challenges: Vec<Vec<(F, ScalarId)>>,
    pub challenge_powers: Vec<Vec<Option<ScalarId>>>,
}

/// `table` lists exactly the descriptors that `make` builds from a field element.
pub open spec fn lists_all<F: Field>(
    views: Seq<ScalarView>,
    table: Seq<(F, ScalarId)>,
    make: spec_fn(int) -> ScalarView,
) -> bool {
    &&& forall|j: int|
        0 <= j < table.len() ==> (#[trigger] table[j]).1.at() < views.len() && views[table[j].1.at()]
            == make(table[j].0.val())
    &&& forall|i: int, v: int|
        0 <= i < views.len() && #[trigger] views[i] == #[trigger] make(v) ==> exists|j: int|
            0 <= j < table.len() && (#[trigger] table[j]).0.val() == v
}

pub open spec fn scaled_maker(c: EvaluationChallenge) -> spec_fn(int) -> ScalarView {
    |v: int| ScalarView::ScaledChallenge(c, v)
}

pub open spec fn literal_maker() -> spec_fn(int) -> ScalarView {
    |v: int| ScalarView::Literal(v)
}

/// Another descriptor does not disturb a table of descriptors of another kind.
proof fn lemma_lists_push<F: Field>(
    views: Seq<ScalarView>,
    table: Seq<(F, ScalarId)>,
    make: spec_fn(int) -> ScalarView,
    d: ScalarView,
)
    requires
        lists_all(views, table, make),
        forall|v: int| #[trigger] make(v) != d,
    ensures
        lists_all(views.push(d), table, make),
{
    let w = views.push(d);
    assert forall|j: int| 0 <= j < table.len() implies (#[trigger] table[j]).1.at() < w.len()
        && w[table[j].1.at()] == make(table[j].0.val()) by {
        assert(views[table[j].1.at()] == make(table[j].0.val()));
    }
    assert forall|i: int, v: int|
        0 <= i < w.len() && #[trigger] w[i] == #[trigger] make(v) implies exists|j: int|
        0 <= j < table.len() && (#[trigger] table[j]).0.val() == v by {
        assert(i < views.len());
        assert(views[i] == make(v));
    }
}

/// A table that gets an entry for the descriptor that is appended lists them all.
proof fn lemma_lists_push_entry<F: Field>(
    views: Seq<ScalarView>,
    table: Seq<(F, ScalarId)>,
    make: spec_fn(int) -> ScalarView,
    value: F,
    id: ScalarId,
)
    requires
        lists_all(views, table, make),
        id.at() == views.len(),
        forall|v: int, w: int| #[trigger] make(v) == #[trigger] make(w) ==> v == w,
    ensures
        lists_all(views.push(make(value.val())), table.push((value, id)), make),
{
    let d = make(value.val());
    let w = views.push(d);
    let t = table.push((value, id));
    assert forall|j: int| 0 <= j < t.len() implies (#[trigger] t[j]).1.at() < w.len() && w[t[j].1.at()]
        == make(t[j].0.val()) by {
        if j < table.len() {
            assert(t[j] == table[j]);
            assert(views[table[j].1.at()] == make(table[j].0.val()));
        }
    }
    assert forall|i: int, v: int| 0 <= i < w.len() && #[trigger] w[i] == #[trigger] make(v) implies exists|
        j: int,
    | 0 <= j < t.len() && (#[trigger] t[j]).0.val() == v by {
        if i < views.len() {
            assert(views[i] == make(v));
            let j = choose|j: int| 0 <= j < table.len() && (#[trigger] table[j]).0.val() == v;
            assert(t[j] == table[j]);
        } else {
            assert(t[table.len() as int].0.val() == v);
        }
    }
}

proof fn lemma_push_contains(views: Seq<ScalarView>, d: ScalarView)
    ensures
        forall|x: ScalarView|
            #[trigger] views.push(d).contains(x) <==> (views.contains(x) || x == d),
{
    let w = views.push(d);
    assert forall|x: ScalarView| #[trigger] w.contains(x) <==> (views.contains(x) || x == d) by {
        if views.contains(x) {
            let i = choose|i: int| 0 <= i < views.len() && views[i] == x;
            assert(w[i] == x);
        }
        if x == d {
            assert(w[views.len() as int] == x);
        }
    }
}

impl<F: Field> PlanScalarInterner<F> {
    /// The descriptors collected so far.
    pub open spec fn view(self) -> Seq<ScalarView> {
        scalar_views(self.descriptors@)
    }

    /// No descriptor occurs twice, and the lookup tables list all of them.
    pub closed spec fn wf(self) -> bool {
        let views = self.view();
        &&& views.len() <= 0x1_0000_0000
        &&& views.no_duplicates()
        &&& lists_all(views, self.literals@, literal_maker())
        &&& self.challenges@.len() == 4
        &&& self.scaled_challenges@.len() == 4
        &&& self.challenge_powers@.len() == 4
        &&& forall|c: EvaluationChallenge|
            lists_all(views, self.scaled_challenges@[#[trigger] c.spec_index()]@, scaled_maker(c))
        &&& forall|c: EvaluationChallenge|
            match self.challenges@[#[trigger] c.spec_index()] {
                Some(id) => id.at() < views.len() && views[id.at()] == ScalarView::Challenge(c),
                None => !views.contains(ScalarView::Challenge(c)),
            }
        &&& forall|c: EvaluationChallenge, e: int|
            0 <= e < self.challenge_powers@[c.spec_index()]@.len() ==> match #[trigger]
            self.challenge_powers@[c.spec_index()]@[e] {
                Some(id) => id.at() < views.len() && views[id.at()]
                    == ScalarView::ChallengePower(c, e as nat),
                None => !views.contains(ScalarView::ChallengePower(c, e as nat)),
            }
        &&& forall|c: EvaluationChallenge, e: nat|
            #[trigger] views.contains(ScalarView::ChallengePower(c, e)) ==> e
                < self.challenge_powers@[c.spec_index()]@.len()
    }

    pub fn new() -> (r: Self)
        ensures
            r.wf(),
            r.view() == Seq::<ScalarView>::empty(),
    {
        let r = PlanScalarInterner {
            descriptors: Vec::new(),
            literals: Vec::new(),
            challenges: vec![None, None, None, None],
            scaled_challenges: vec![Vec::new(), Vec::new(), Vec::new(), Vec::new()],
            challenge_powers: vec![Vec::new(), Vec::new(), Vec::new(), Vec::new()],
        };
        assert(r.view() =~= Seq::<ScalarView>::empty());
        r
    }

    /// Appends a descriptor and returns its position.
    pub fn push(&mut self, descriptor: PlanScalar<F>) -> (id: ScalarId)
        requires
            old(self).descriptors@.len() <= u32::MAX,
        ensures
            id.at() == old(self).descriptors@.len(),
            final(self).descriptors@ == old(self).descriptors@.push(descriptor),
            final(self).literals == old(self).literals,
            final(self).challenges == old(self).challenges,
            final(self).scaled_challenges == old(self).scaled_challenges,
            final(self).challenge_powers == old(self).challenge_powers,
    {
        let id = ScalarId::from_index(self.descriptors.len()).unwrap();
        self.descriptors.push(descriptor);
        id
    }

    /// The tables for literals and scaled challenges after a descriptor that none of
    /// them lists.
    proof fn lemma_push_kept(self, d: ScalarView)
        requires
            self.wf(),
            !self.view().contains(d),
        ensures
            self.view().push(d).no_duplicates(),
            !(d is Literal) ==> lists_all(self.view().push(d), self.literals@, literal_maker()),
            forall|c: EvaluationChallenge|
                !(d matches ScalarView::ScaledChallenge(k, _) && k == c) ==> lists_all(
                    self.view().push(d),
                    self.scaled_challenges@[#[trigger] c.spec_index()]@,
                    scaled_maker(c),
                ),
            forall|x: ScalarView|
                #[trigger] self.view().push(d).contains(x) <==> (self.view().contains(x) || x == d),
    {
        let views = self.view();
        lemma_push_contains(views, d);
        if !(d is Literal) {
            lemma_lists_push(views, self.literals@, literal_maker(), d);
        }
        assert forall|c: EvaluationChallenge|
            !(d matches ScalarView::ScaledChallenge(k, _) && k == c) implies lists_all(
            views.push(d),
            self.scaled_challenges@[#[trigger] c.spec_index()]@,
            scaled_maker(c),
        ) by {
            lemma_lists_push(views, self.scaled_challenges@[c.spec_index()]@, scaled_maker(c), d);
        }
        assert forall|i: int, j: int|
            0 <= i < views.push(d).len() && 0 <= j < views.push(d).len() && i != j implies views.push(
            d,
        )[i] != views.push(d)[j] by {
            if i == views.len() {
                assert(views.contains(views[j]));
            } else if j == views.len() {
                assert(views.contains(views[i]));
            }
        }
    }

    /// Returns the position of `descriptor`, which is appended only if it is not
    /// there yet.
    pub fn intern(&mut self, descriptor: PlanScalar<F>) -> (id: ScalarId)
        requires
            old(self).wf(),
            old(self).view().contains(descriptor.view()) || old(self).view().len() <= u32::MAX,
            descriptor matches PlanScalar::ChallengePower { exponent, .. } ==> exponent
                < usize::MAX,
        ensures
            final(self).wf(),
            final(self).view().no_duplicates(),
            id.at() < final(self).view().len(),
            final(self).view()[id.at()] == descriptor.view(),
            final(self).view() == interned(old(self).view(), descriptor.view()),
    {
        match descriptor {
            PlanScalar::Literal(value) => self.intern_literal(value),
            PlanScalar::Challenge(challenge) => self.intern_challenge(challenge),
            PlanScalar::ScaledChallenge { challenge, factor } => {
                self.intern_scaled_challenge(challenge, factor)
            },
            PlanScalar::ChallengePower { challenge, exponent } => {
                self.intern_challenge_power(challenge, exponent)
            },
        }
    }

    fn intern_literal(&mut self, value: F) -> (id: ScalarId)
        requires
            old(self).wf(),
            old(self).view().contains(ScalarView::Literal(value.val())) || old(self).view().len()
                <= u32::MAX,
        ensures
            final(self).wf(),
            id.at() < final(self).view().len(),
            final(self).view()[id.at()] == ScalarView::Literal(value.val()),
            final(self).view() == (if old(self).view().contains(ScalarView::Literal(value.val())) {
                old(self).view()
            } else {
                old(self).view().push(ScalarView::Literal(value.val()))
            }),
    {
        let ghost d = ScalarView::Literal(value.val());
        let ghost views = self.view();
        assert(literal_maker()(value.val()) == d);
        let mut i: usize = 0;
        while i < self.literals.len()
            invariant
                *self == *old(self),
                self.wf(),
                d == ScalarView::Literal(value.val()),
                literal_maker()(value.val()) == d,
                i <= self.literals@.len(),
                forall|j: int|
                    0 <= j < i ==> (#[trigger] self.literals@[j]).0.val() != value.val(),
            decreases self.literals.len() - i,
        {
            if self.literals[i].0.equals(&value) {
                let id = self.literals[i].1;
                assert(self.view()[id.at()] == literal_maker()(self.literals@[i as int].0.val()));
                return id;
            }
            i += 1;
        }
        proof {
            if views.contains(d) {
                let k = choose|k: int| 0 <= k < views.len() && views[k] == d;
                assert(views[k] == literal_maker()(value.val()));
                assert(false);
            }
            self.lemma_push_kept(d);
        }
        let id = self.push(PlanScalar::Literal(value));
        let ghost table = self.literals@;
        self.literals.push((value, id));
        proof {
            assert(self.view() =~= views.push(d));
            assert forall|v: int, w: int| #[trigger] literal_maker()(v) == #[trigger] literal_maker()(w)
                implies v == w by {}
            lemma_lists_push_entry(views, table, literal_maker(), value, id);
            assert(!(d is Challenge));
        }
        id
    }

    fn intern_challenge(&mut self, challenge: EvaluationChallenge) -> (id: ScalarId)
        requires
            old(self).wf(),
            old(self).view().contains(ScalarView::Challenge(challenge)) || old(self).view().len()
                <= u32::MAX,
        ensures
            final(self).wf(),
            id.at() < final(self).view().len(),
            final(self).view()[id.at()] == ScalarView::Challenge(challenge),
            final(self).view() == (if old(self).view().contains(ScalarView::Challenge(challenge)) {
                old(self).view()
            } else {
                old(self).view().push(ScalarView::Challenge(challenge))
            }),
    {
        let ghost d = ScalarView::Challenge(challenge);
        let ghost views = self.view();
        let index: usize = challenge.index();
        if let Some(id) = self.challenges[index] {
            assert(views[id.at()] == d);
            return id;
        }
        proof {
            self.lemma_push_kept(d);
        }
        let id = self.push(PlanScalar::Challenge(challenge));
        self.challenges.set(index, Some(id));
        proof {
            assert(self.view() =~= views.push(d));
            assert forall|c: EvaluationChallenge|
                match self.challenges@[#[trigger] c.spec_index()] {
                    Some(id) => id.at() < self.view().len() && self.view()[id.at()]
                        == ScalarView::Challenge(c),
                    None => !self.view().contains(ScalarView::Challenge(c)),
                } by {
                if c != challenge {
                    assert(c.spec_index() != index);
                }
            }
        }
        id
    }

    fn intern_scaled_challenge(&mut self, challenge: EvaluationChallenge, factor: F) -> (id:
        ScalarId)
        requires
            old(self).wf(),
            old(self).view().contains(ScalarView::ScaledChallenge(challenge, factor.val())) || old(
                self,
            ).view().len() <= u32::MAX,
        ensures
            final(self).wf(),
            id.at() < final(self).view().len(),
            final(self).view()[id.at()] == ScalarView::ScaledChallenge(challenge, factor.val()),
            final(self).view() == (if old(self).view().contains(
                ScalarView::ScaledChallenge(challenge, factor.val()),
            ) {
                old(self).view()
            } else {
                old(self).view().push(ScalarView::ScaledChallenge(challenge, factor.val()))
            }),
    {
        let ghost d = ScalarView::ScaledChallenge(challenge, factor.val());
        let ghost views = self.view();
        let ghost make = scaled_maker(challenge);
        let index: usize = challenge.index();
        assert(make(factor.val()) == d);
        assert(lists_all(views, self.scaled_challenges@[challenge.spec_index()]@, make));
        let mut i: usize = 0;
        while i < self.scaled_challenges[index].len()
            invariant
                *self == *old(self),
                self.wf(),
                views == self.view(),
                index == challenge.spec_index(),
                index < 4,
                make == scaled_maker(challenge),
                make(factor.val()) == d,
                d == ScalarView::ScaledChallenge(challenge, factor.val()),
                lists_all(views, self.scaled_challenges@[index as int]@, make),
                i <= self.scaled_challenges@[index as int]@.len(),
                forall|j: int|
                    0 <= j < i ==> (#[trigger] self.scaled_challenges@[index as int]@[j]).0.val()
                        != factor.val(),
            decreases self.scaled_challenges[index as int].len() - i,
        {
            if self.scaled_challenges[index][i].0.equals(&factor) {
                let id = self.scaled_challenges[index][i].1;
                assert(self.view()[id.at()] == make(
                    self.scaled_challenges@[index as int]@[i as int].0.val(),
                ));
                return id;
            }
            i += 1;
        }
        proof {
            if views.contains(d) {
                let k = choose|k: int| 0 <= k < views.len() && views[k] == d;
                assert(views[k] == make(factor.val()));
                assert(false);
            }
            self.lemma_push_kept(d);
        }
        let id = self.push(PlanScalar::ScaledChallenge { challenge, factor });
        let ghost table = self.scaled_challenges@[index as int]@;
        self.scaled_challenges[index].push((factor, id));
        proof {
            assert(self.view() =~= views.push(d));
            assert forall|v: int, w: int| #[trigger] make(v) == #[trigger] make(w) implies v
                == w by {}
            lemma_lists_push_entry(views, table, make, factor, id);
            assert forall|c: EvaluationChallenge|
                lists_all(
                    self.view(),
                    self.scaled_challenges@[#[trigger] c.spec_index()]@,
                    scaled_maker(c),
                ) by {
                if c != challenge {
                    assert(c.spec_index() != index);
                }
            }
        }
        id
    }

    fn intern_challenge_power(&mut self, challenge: EvaluationChallenge, exponent: u32) -> (id:
        ScalarId)
        requires
            old(self).wf(),
            old(self).view().contains(ScalarView::ChallengePower(challenge, exponent as nat))
                || old(self).view().len() <= u32::MAX,
            exponent < usize::MAX,
        ensures
            final(self).wf(),
            id.at() < final(self).view().len(),
            final(self).view()[id.at()] == ScalarView::ChallengePower(challenge, exponent as nat),
            final(self).view() == (if old(self).view().contains(
                ScalarView::ChallengePower(challenge, exponent as nat),
            ) {
                old(self).view()
            } else {
                old(self).view().push(ScalarView::ChallengePower(challenge, exponent as nat))
            }),
    {
        let ghost d = ScalarView::ChallengePower(challenge, exponent as nat);
        let ghost views = self.view();
        let index: usize = challenge.index();
        let exponent_index: usize = exponent as usize;
        if self.challenge_powers[index].len() <= exponent_index {
            let ghost before = self.challenge_powers@[index as int]@;
            self.challenge_powers[index].resize(exponent_index + 1, None);
            proof {
                assert(self.view() == views);
                let after = self.challenge_powers@[index as int]@;
                assert forall|c: EvaluationChallenge, e: int|
                    0 <= e < self.challenge_powers@[c.spec_index()]@.len() implies match #[trigger] self.challenge_powers@[c.spec_index()]@[e] {
                    Some(id) => id.at() < views.len() && views[id.at()]
                        == ScalarView::ChallengePower(c, e as nat),
                    None => !views.contains(ScalarView::ChallengePower(c, e as nat)),
                } by {
                    if c == challenge {
                        if e < before.len() {
                            assert(after[e] == before[e]);
                            assert(old(self).challenge_powers@[c.spec_index()]@[e] == before[e]);
                        } else {
                            assert(after[e] is None);
                            if views.contains(ScalarView::ChallengePower(c, e as nat)) {
                                assert(e < before.len());
                            }
                        }
                    } else {
                        assert(c.spec_index() != index);
                        assert(old(self).challenge_powers@[c.spec_index()]@[e]
                            == self.challenge_powers@[c.spec_index()]@[e]);
                    }
                }
                assert forall|c: EvaluationChallenge, e: nat| #[trigger]
                    views.contains(ScalarView::ChallengePower(c, e)) implies e
                    < self.challenge_powers@[c.spec_index()]@.len() by {
                    if c != challenge {
                        assert(c.spec_index() != index);
                    }
                }
                assert(self.wf());
            }
        }
        let ghost mid = *self;
        if let Some(id) = self.challenge_powers[index][exponent_index] {
            assert(mid.challenge_powers@[challenge.spec_index()]@[exponent_index as int] == Some(
                id,
            ));
            assert(views[id.at()] == d);
            return id;
        }
        proof {
            assert(mid.challenge_powers@[challenge.spec_index()]@[exponent_index as int] is None);
            assert(!views.contains(d));
            self.lemma_push_kept(d);
        }
        let id = self.push(PlanScalar::ChallengePower { challenge, exponent });
        self.challenge_powers[index].set(exponent_index, Some(id));
        proof {
            assert(self.view() =~= views.push(d));
            assert forall|c: EvaluationChallenge, e: int|
                0 <= e < self.challenge_powers@[c.spec_index()]@.len() implies match #[trigger] self.challenge_powers@[c.spec_index()]@[e] {
                Some(id) => id.at() < self.view().len() && self.view()[id.at()]
                    == ScalarView::ChallengePower(c, e as nat),
                None => !self.view().contains(ScalarView::ChallengePower(c, e as nat)),
            } by {
                if c != challenge {
                    assert(c.spec_index() != index);
                }
                if !(c == challenge && e == exponent_index) {
                    assert(mid.challenge_powers@[c.spec_index()]@[e]
                        == self.challenge_powers@[c.spec_index()]@[e]);
                    assert(ScalarView::ChallengePower(c, e as nat) != d);
                }
            }
            assert forall|c: EvaluationChallenge, e: nat| #[trigger]
                self.view().contains(ScalarView::ChallengePower(c, e)) implies e
                < self.challenge_powers@[c.spec_index()]@.len() by {
                if c != challenge {
                    assert(c.spec_index() != index);
                }
                if views.contains(ScalarView::ChallengePower(c, e)) {
                    assert(e < mid.challenge_powers@[c.spec_index()]@.len());
                }
            }
        }
        id
    }

    /// The collected descriptors, in order.
    pub fn finish(self) -> (r: Vec<PlanScalar<F>>)
        requires
            self.wf(),
        ensures
            scalar_views(r@) == self.view(),
            self.view().no_duplicates(),
            forall|c: EvaluationChallenge, e: nat|
                #[trigger] self.view().contains(ScalarView::ChallengePower(c, e)) ==> e
                    < usize::MAX,
    {
        proof {
            assert forall|c: EvaluationChallenge, e: nat| #[trigger]
                self.view().contains(ScalarView::ChallengePower(c, e)) implies e < usize::MAX by {
                let ids = self.challenge_powers@[c.spec_index()];
                assert(e < ids@.len());
                assert(ids.len() == ids@.len());
            }
        }
        self.descriptors
    }
}

/// The descriptors with one that is collected: behind the others, unless it is there.
pub open spec fn interned(views: Seq<ScalarView>, d: ScalarView) -> Seq<ScalarView> {
    if views.contains(d) {
        views
    } else {
        views.push(d)
    }
}

/// Two descriptors that are collected one after the other have the same position just
/// where they are equal: a challenge, the challenge scaled by one, its first power and a
/// literal of its value stay apart. What was collected keeps its position.
pub proof fn law_positions_tell_descriptors_apart(
    views: Seq<ScalarView>,
    a: ScalarView,
    b: ScalarView,
    i: int,
    j: int,
)
    requires
        views.no_duplicates(),
        0 <= i < interned(views, a).len(),
        interned(views, a)[i] == a,
        0 <= j < interned(interned(views, a), b).len(),
        interned(interned(views, a), b)[j] == b,
    ensures
        i == j <==> a == b,
        interned(interned(views, a), b)[i] == a,
        interned(interned(views, a), b).no_duplicates(),
        !views.contains(a) ==> i == views.len(),
{
    let first = interned(views, a);
    let last = interned(first, b);
    assert(first.no_duplicates());
    assert(last.no_duplicates());
    assert(last[i] == a);
}

/// The challenges of one proof, with the powers that its plan uses.
pub struct BoundEvaluationChallenges<F> {
    pub values: EvaluationChallenges<F>,
    pub powers: Vec<Vec<F>>,
}

/// How a scalar multiplies: the cases that need no multiplication are told apart.
#[derive(Clone, Copy, Debug, PartialEq, Eq, Structural)]
pub enum ScaleKind {
    MinusOne,
    One,
    Two,
    Other,
}

/// Whether `kind` may stand for multiplication by `v`.
pub open spec fn kind_fits(kind: ScaleKind, v: int, p: int) -> bool {
    match kind {
        ScaleKind::MinusOne => v == (-1int) % p,
        ScaleKind::One => v == 1,
        ScaleKind::Two => v == 2int % p,
        ScaleKind::Other => true,
    }
}

/// What multiplication by `v` comes to.
pub open spec fn kind_of(v: int, p: int) -> ScaleKind {
    if v == (-1int) % p {
        ScaleKind::MinusOne
    } else if v == 1 {
        ScaleKind::One
    } else if v == 2int % p {
        ScaleKind::Two
    } else {
        ScaleKind::Other
    }
}

impl<F: Field> BoundEvaluationChallenges<F> {
    /// The powers `0 ..= max_exponents[c]` of every challenge `c` are at hand.
    pub open spec fn wf(self, max_exponents: Seq<u32>) -> bool {
        &&& self.powers@.len() == 4
        &&& forall|c: EvaluationChallenge|
            self.powers@[#[trigger] c.spec_index()]@.len() == max_exponents[c.spec_index()] + 1
        &&& forall|c: EvaluationChallenge, e: int|
            0 <= e < self.powers@[c.spec_index()]@.len() ==> (
            #[trigger] self.powers@[c.spec_index()]@[e]).val() == pow(
                self.values.view().of(c),
                e as nat,
            ) % F::order()
    }

    pub fn new(
        values: EvaluationChallenges<F>,
        max_exponents: [u32; EVALUATION_CHALLENGE_COUNT],
    ) -> (r: Self)
        requires
            forall|i: int| 0 <= i < 4 ==> #[trigger] max_exponents@[i] < usize::MAX,
        ensures
            r.values == values,
            r.wf(max_exponents@),
    {
        let theta = challenge_powers(values.theta, max_exponents[0]);
        let beta = challenge_powers(values.beta, max_exponents[1]);
        let gamma = challenge_powers(values.gamma, max_exponents[2]);
        let y = challenge_powers(values.y, max_exponents[3]);
        let r = BoundEvaluationChallenges { values, powers: vec![theta, beta, gamma, y] };
        assert forall|c: EvaluationChallenge, e: int|
            0 <= e < r.powers@[c.spec_index()]@.len() implies (
        #[trigger] r.powers@[c.spec_index()]@[e]).val() == pow(r.values.view().of(c), e as nat)
            % F::order() by {
            match c {
                EvaluationChallenge::Theta => {},
                EvaluationChallenge::Beta => {},
                EvaluationChallenge::Gamma => {},
                EvaluationChallenge::Y => {},
            }
        }
        r
    }
}

/// The powers of `challenge` up to `max_exponent`, from the lowest.
fn challenge_powers<F: Field>(challenge: F, max_exponent: u32) -> (powers: Vec<F>)
    requires
        max_exponent < usize::MAX,
    ensures
        powers@.len() == max_exponent + 1,
        forall|e: int|
            0 <= e < powers@.len() ==> (#[trigger] powers@[e]).val() == pow(
                challenge.val(),
                e as nat,
            ) % F::order(),
{
    let max_exponent: usize = max_exponent as usize;
    let mut powers: Vec<F> = Vec::with_capacity(max_exponent + 1);
    proof {
        F::lemma_order();
        lemma_pow0(challenge.val());
        arith::lemma_mod_small(1, F::order());
    }
    powers.push(F::one());
    let mut exponent: usize = 1;
    while exponent <= max_exponent
        invariant
            1 <= exponent <= max_exponent + 1,
            max_exponent < usize::MAX,
            powers@.len() == exponent,
            forall|e: int|
                0 <= e < powers@.len() ==> (#[trigger] powers@[e]).val() == pow(
                    challenge.val(),
                    e as nat,
                ) % F::order(),
        decreases max_exponent + 1 - exponent,
    {
        let next = powers[exponent - 1].mul(challenge);
        proof {
            F::lemma_order();
            let below = pow(challenge.val(), (exponent - 1) as nat);
            arith::lemma_pow_step(challenge.val(), (exponent - 1) as nat);
            arith::lemma_mod_mul(below, challenge.val(), F::order());
        }
        powers.push(next);
        exponent += 1;
    }
    powers
}

impl<F: Field> PlanScalar<F> {
    /// The value of this scalar for the given challenges.
    pub fn resolve(self, challenges: &BoundEvaluationChallenges<F>) -> (r: F)
        requires
            challenges.powers@.len() == 4,
            self matches PlanScalar::ChallengePower { challenge, exponent } ==> {
                &&& exponent < challenges.powers@[challenge.spec_index()]@.len()
                &&& challenges.powers@[challenge.spec_index()]@[exponent as int].val() == pow(
                    challenges.values.view().of(challenge),
                    exponent as nat,
                ) % F::order()
            },
        ensures
            r.val() == scalar_value(self.view(), challenges.values.view(), F::order()),
    {
        match self {
            PlanScalar::Literal(value) => value,
            PlanScalar::Challenge(challenge) => challenge.value(&challenges.values),
            PlanScalar::ScaledChallenge { challenge, factor } => challenge.value(
                &challenges.values,
            ).mul(factor),
            PlanScalar::ChallengePower { challenge, exponent } => {
                challenges.powers[challenge.index()][exponent as usize]
            },
        }
    }

    /// Raises the recorded maximum where this scalar is a higher power.
    pub fn record_max_exponent(self, max_exponents: &mut [u32; EVALUATION_CHALLENGE_COUNT])
        ensures
            final(max_exponents)@ == (match self {
                PlanScalar::ChallengePower { challenge, exponent } => old(max_exponents)@.update(
                    challenge.spec_index(),
                    if old(max_exponents)@[challenge.spec_index()] >= exponent {
                        old(max_exponents)@[challenge.spec_index()]
                    } else {
                        exponent
                    },
                ),
                _ => old(max_exponents)@,
            }),
    {
        if let PlanScalar::ChallengePower { challenge, exponent } = self {
            let index: usize = challenge.index();
            if max_exponents[index] < exponent {
                max_exponents[index] = exponent;
            }
            assert(max_exponents@ =~= old(max_exponents)@.update(index as int, max_exponents@[index as int]));
        }
    }
}

/// The largest exponent with which each challenge occurs as a power, or zero.
pub open spec fn exponents_cover(views: Seq<ScalarView>, max_exponents: Seq<u32>) -> bool {
    forall|i: int|
        0 <= i < views.len() ==> (#[trigger] views[i] matches ScalarView::ChallengePower(c, e) ==> e
            <= max_exponents[c.spec_index()])
}

pub fn max_challenge_exponents<F: Field>(descriptors: &[PlanScalar<F>]) -> (r: [u32;
    EVALUATION_CHALLENGE_COUNT])
    ensures
        exponents_cover(scalar_views(descriptors@), r@),
        forall|c: EvaluationChallenge|
            r@[#[trigger] c.spec_index()] == 0 || scalar_views(descriptors@).contains(
                ScalarView::ChallengePower(c, r@[c.spec_index()] as nat),
            ),
{
    let mut max_exponents: [u32; EVALUATION_CHALLENGE_COUNT] = [0, 0, 0, 0];
    let ghost views = scalar_views(descriptors@);
    let mut i: usize = 0;
    while i < descriptors.len()
        invariant
            i <= descriptors@.len(),
            views == scalar_views(descriptors@),
            exponents_cover(views.take(i as int), max_exponents@),
            forall|c: EvaluationChallenge|
                max_exponents@[#[trigger] c.spec_index()] == 0 || views.contains(
                    ScalarView::ChallengePower(c, max_exponents@[c.spec_index()] as nat),
                ),
        decreases descriptors@.len() - i,
    {
        let ghost before = max_exponents@;
        descriptors[i].record_max_exponent(&mut max_exponents);
        proof {
            assert(views[i as int] == descriptors@[i as int].view());
            assert forall|k: int| 0 <= k < i + 1 implies (#[trigger] views.take(i + 1)[k] matches
            ScalarView::ChallengePower(c, e) ==> e <= max_exponents@[c.spec_index()]) by {
                if k < i {
                    assert(views.take(i as int)[k] == views[k]);
                }
            }
            assert forall|c: EvaluationChallenge|
                max_exponents@[#[trigger] c.spec_index()] == 0 || views.contains(
                    ScalarView::ChallengePower(c, max_exponents@[c.spec_index()] as nat),
                ) by {
                if max_exponents@[c.spec_index()] != before[c.spec_index()] {
                    assert(views[i as int] == ScalarView::ChallengePower(
                        c,
                        max_exponents@[c.spec_index()] as nat,
                    ));
                }
            }
        }
        i += 1;
    }
    assert(views.take(i as int) =~= views);
    max_exponents
}

/// `sv` holds the values of the descriptors `views`, at their positions.
pub open spec fn scalars_bound(
    sv: Seq<int>,
    views: Seq<ScalarView>,
    ch: ChallengeView,
    p: int,
) -> bool {
    &&& sv.len() >= views.len()
    &&& forall|i: int|
        0 <= i < views.len() ==> #[trigger] sv[i] == scalar_value(views[i], ch, p)
}

/// The scalars of a plan, with their values for one proof.
pub struct BoundPlanScalars<F> {
    pub values: Vec<F>,
    pub scale_kinds: Vec<ScaleKind>,
}

impl<F: Field> BoundPlanScalars<F> {
    pub open spec fn view(self) -> Seq<int> {
        poly::vals(self.values@)
    }

    /// Every scalar has a kind that fits its value.
    pub open spec fn wf(self) -> bool {
        &&& self.values@.len() == self.scale_kinds@.len()
        &&& forall|i: int|
            0 <= i < self.values@.len() ==> #[trigger] self.scale_kinds@[i] == kind_of(
                self.values@[i].val(),
                F::order(),
            )
    }

    pub fn get(&self, id: ScalarId) -> (r: F)
        requires
            id.at() < self.values@.len(),
        ensures
            r.val() == self.view()[id.at()],
    {
        self.values[id.index()]
    }

    pub fn scale(&self, id: ScalarId) -> (r: (F, ScaleKind))
        requires
            self.wf(),
            id.at() < self.values@.len(),
        ensures
            r.0.val() == self.view()[id.at()],
            r.1 == kind_of(r.0.val(), F::order()),
            kind_fits(r.1, r.0.val(), F::order()),
    {
        assert(self.scale_kinds@[id.at()] == kind_of(self.values@[id.at()].val(), F::order()));
        (self.values[id.index()], self.scale_kinds[id.index()])
    }

    pub fn new(
        descriptors: &[PlanScalar<F>],
        challenges: EvaluationChallenges<F>,
        max_exponents: [u32; EVALUATION_CHALLENGE_COUNT],
    ) -> (r: Self)
        requires
            forall|i: int| 0 <= i < 4 ==> #[trigger] max_exponents@[i] < usize::MAX,
            exponents_cover(scalar_views(descriptors@), max_exponents@),
        ensures
            r.wf(),
            r.view().len() == descriptors@.len(),
            scalars_bound(r.view(), scalar_views(descriptors@), challenges.view(), F::order()),
    {
        let bound = BoundEvaluationChallenges::new(challenges, max_exponents);
        let minus_one = F::one().neg();
        let two = F::one().double();
        let ghost views = scalar_views(descriptors@);
        let mut values: Vec<F> = Vec::with_capacity(descriptors.len());
        let mut scale_kinds: Vec<ScaleKind> = Vec::with_capacity(descriptors.len());
        let mut i: usize = 0;
        while i < descriptors.len()
            invariant
                i <= descriptors@.len(),
                views == scalar_views(descriptors@),
                bound.wf(max_exponents@),
                bound.values == challenges,
                exponents_cover(views, max_exponents@),
                minus_one.val() == (-1int) % F::order(),
                two.val() == 2int % F::order(),
                values@.len() == i,
                scale_kinds@.len() == i,
                forall|k: int|
                    0 <= k < i ==> (#[trigger] values@[k]).val() == scalar_value(
                        views[k],
                        challenges.view(),
                        F::order(),
                    ),
                forall|k: int|
                    0 <= k < i ==> #[trigger] scale_kinds@[k] == kind_of(
                        values@[k].val(),
                        F::order(),
                    ),
            decreases descriptors@.len() - i,
        {
            proof {
                assert(views[i as int] == descriptors@[i as int].view());
            }
            let value = descriptors[i].resolve(&bound);
            let kind = if value.equals(&minus_one) {
                ScaleKind::MinusOne
            } else if value.equals(&F::one()) {
                ScaleKind::One
            } else if value.equals(&two) {
                ScaleKind::Two
            } else {
                ScaleKind::Other
            };
            values.push(value);
            scale_kinds.push(kind);
            i += 1;
        }
        let r = BoundPlanScalars { values, scale_kinds };
        assert forall|k: int| 0 <= k < views.len() implies #[trigger] r.view()[k] == scalar_value(
            views[k],
            challenges.view(),
            F::order(),
        ) by {
            assert(r.values@[k].val() == r.view()[k]);
        }
        r
    }
}

/// The base of a sequence of powers.
#[derive(Clone, Copy, Debug)]
pub enum PowerBase<F> {
    Literal(F),
    Challenge(EvaluationChallenge),
}

/// What a [`PowerBase`] is, with a field element as an integer.
pub enum BaseView {
    Literal(int),
    Challenge(EvaluationChallenge),
}

impl BaseView {
    /// The value of the base once the challenges are known.
    pub open spec fn value(self, ch: ChallengeView) -> int {
        match self {
            BaseView::Literal(v) => v,
            BaseView::Challenge(c) => ch.of(c),
        }
    }
}

impl<F: Field> PowerBase<F> {
    pub open spec fn view(self) -> BaseView {
        match self {
            PowerBase::Literal(v) => BaseView::Literal(v.val()),
            PowerBase::Challenge(c) => BaseView::Challenge(c),
        }
    }

    pub fn scalar(self) -> (r: PlanScalar<F>)
        ensures
            r.view() == (match self.view() {
                BaseView::Literal(v) => ScalarView::Literal(v),
                BaseView::Challenge(c) => ScalarView::Challenge(c),
            }),
            !(r is ChallengePower),
    {
        match self {
            PowerBase::Literal(value) => PlanScalar::Literal(value),
            PowerBase::Challenge(challenge) => PlanScalar::Challenge(challenge),
        }
    }

    /// The first `len` powers of the base, from the lowest.
    pub fn powers(self, len: usize) -> (r: Vec<PlanScalar<F>>)
        requires
            self is Challenge ==> len <= 0x1_0000_0000,
        ensures
            r@.len() == len,
            forall|e: int|
                0 <= e < len ==> (#[trigger] r@[e]).view() == (match self.view() {
                    BaseView::Literal(v) => ScalarView::Literal(pow(v, e as nat) % F::order()),
                    BaseView::Challenge(c) => ScalarView::ChallengePower(c, e as nat),
                }),
    {
        let mut r: Vec<PlanScalar<F>> = Vec::with_capacity(len);
        match self {
            PowerBase::Literal(base) => {
                let mut power = F::one();
                proof {
                    F::lemma_order();
                    lemma_pow0(base.val());
                    arith::lemma_mod_small(1, F::order());
                }
                let mut e: usize = 0;
                while e < len
                    invariant
                        e <= len,
                        r@.len() == e,
                        power.val() == pow(base.val(), e as nat) % F::order(),
                        forall|k: int|
                            0 <= k < e ==> (#[trigger] r@[k]).view() == ScalarView::Literal(
                                pow(base.val(), k as nat) % F::order(),
                            ),
                    decreases len - e,
                {
                    r.push(PlanScalar::Literal(power));
                    power = power.mul(base);
                    proof {
                        F::lemma_order();
                        arith::lemma_pow_step(base.val(), e as nat);
                        arith::lemma_mod_mul(pow(base.val(), e as nat), base.val(), F::order());
                    }
                    e += 1;
                }
            },
            PowerBase::Challenge(challenge) => {
                let mut e: usize = 0;
                while e < len
                    invariant
                        e <= len,
                        len <= 0x1_0000_0000,
                        r@.len() == e,
                        forall|k: int|
                            0 <= k < e ==> (#[trigger] r@[k]).view() == ScalarView::ChallengePower(
                                challenge,
                                k as nat,
                            ),
                    decreases len - e,
                {
                    r.push(PlanScalar::ChallengePower { challenge, exponent: e as u32 });
                    e += 1;
                }
            },
        }
        r
    }
}

} // verus!
