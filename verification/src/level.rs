//! Universe levels and their order.

use crate::num::Natural;
use crate::share::same_node;
use std::rc::Rc;
use vstd::prelude::*;

verus! {

/// The shape of a level.
pub enum LevelData {
    Zero,
    Succ(Level),
    Max(Level, Level),
    IMax(Level, Level),
    Param(u32),
}

/// A universe level.
pub struct Level {
    node: Rc<LevelData>,
}

/// The mathematical reading of a [`Level`].
pub enum Univ {
    Zero,
    Succ(Box<Univ>),
    Max(Box<Univ>, Box<Univ>),
    IMax(Box<Univ>, Box<Univ>),
    Param(u32),
}

impl LevelData {
    /// The mathematical reading.
    pub open spec fn model(self) -> Univ
        decreases self,
    {
        match self {
            LevelData::Zero => Univ::Zero,
            LevelData::Succ(a) => Univ::Succ(Box::new(a.model())),
            LevelData::Max(a, b) => Univ::Max(Box::new(a.model()), Box::new(b.model())),
            LevelData::IMax(a, b) => Univ::IMax(Box::new(a.model()), Box::new(b.model())),
            LevelData::Param(p) => Univ::Param(p),
        }
    }
}

impl Level {
    /// The mathematical reading.
    pub closed spec fn model(self) -> Univ
        decreases self,
    {
        (*self.node).model()
    }

    /// The shape of the level.
    pub fn data(&self) -> (r: &LevelData)
        ensures
            r.model() == self@,
            decreases_to!(self => r),
    {
        &self.node
    }
}

impl View for Level {
    type V = Univ;

    open spec fn view(&self) -> Univ {
        self.model()
    }
}

impl DeepView for Level {
    type V = Univ;

    open spec fn deep_view(&self) -> Univ {
        self.model()
    }
}

impl Clone for Level {
    fn clone(&self) -> (r: Self)
        ensures
            r == *self,
    {
        Level { node: self.node.clone() }
    }
}

/// The value of a level where the parameters have the given values.
pub open spec fn univ_value(l: Univ, rho: spec_fn(u32) -> nat) -> nat
    decreases l,
{
    match l {
        Univ::Zero => 0,
        Univ::Succ(a) => univ_value(*a, rho) + 1,
        Univ::Max(a, b) => nat_max(univ_value(*a, rho), univ_value(*b, rho)),
        Univ::IMax(a, b) => if univ_value(*b, rho) == 0 {
            0
        } else {
            nat_max(univ_value(*a, rho), univ_value(*b, rho))
        },
        Univ::Param(p) => rho(p),
    }
}

/// The larger of two naturals.
pub open spec fn nat_max(a: nat, b: nat) -> nat {
    if a >= b {
        a
    } else {
        b
    }
}

/// Whether the first level is at most the second, whatever the parameters are.
pub open spec fn univ_le(a: Univ, b: Univ) -> bool {
    forall|rho: spec_fn(u32) -> nat| #[trigger] univ_value(a, rho) <= univ_value(b, rho)
}

/// Whether the two levels agree, whatever the parameters are.
pub open spec fn univ_eq(a: Univ, b: Univ) -> bool {
    forall|rho: spec_fn(u32) -> nat| #[trigger] univ_value(a, rho) == univ_value(b, rho)
}

/// Whether the level is positive, whatever the parameters are.
pub open spec fn univ_positive(a: Univ) -> bool {
    forall|rho: spec_fn(u32) -> nat| #[trigger] univ_value(a, rho) > 0
}

/// Whether two lists of levels agree entry by entry.
pub open spec fn univs_eq(a: Seq<Univ>, b: Seq<Univ>) -> bool {
    a.len() == b.len() && forall|i: int| 0 <= i < a.len() ==> #[trigger] univ_eq(a[i], b[i])
}

/// The level zero.
pub fn zero() -> (r: Level)
    ensures
        r@ == Univ::Zero,
{
    Level { node: Rc::new(LevelData::Zero) }
}

/// The next level.
pub fn succ(a: Level) -> (r: Level)
    ensures
        r@ == Univ::Succ(Box::new(a@)),
{
    Level { node: Rc::new(LevelData::Succ(a)) }
}

/// The larger of two levels.
pub fn max(a: Level, b: Level) -> (r: Level)
    ensures
        r@ == Univ::Max(Box::new(a@), Box::new(b@)),
{
    Level { node: Rc::new(LevelData::Max(a, b)) }
}

/// The larger of two levels, but zero where the second is zero.
pub fn imax(a: Level, b: Level) -> (r: Level)
    ensures
        r@ == Univ::IMax(Box::new(a@), Box::new(b@)),
{
    Level { node: Rc::new(LevelData::IMax(a, b)) }
}

/// A level parameter.
pub fn param(p: u32) -> (r: Level)
    ensures
        r@ == Univ::Param(p),
{
    Level { node: Rc::new(LevelData::Param(p)) }
}

/// Whether two levels are written the same way.
pub fn level_same(a: &Level, b: &Level) -> (r: bool)
    ensures
        r == (a@ == b@),
    decreases a,
{
    if same_node(&a.node, &b.node) {
        return true;
    }
    match a.data() {
        LevelData::Zero => match b.data() {
            LevelData::Zero => true,
            _ => false,
        },
        LevelData::Succ(x) => match b.data() {
            LevelData::Succ(y) => level_same(x, y),
            _ => false,
        },
        LevelData::Max(x1, x2) => match b.data() {
            LevelData::Max(y1, y2) => level_same(x1, y1) && level_same(x2, y2),
            _ => false,
        },
        LevelData::IMax(x1, x2) => match b.data() {
            LevelData::IMax(y1, y2) => level_same(x1, y1) && level_same(x2, y2),
            _ => false,
        },
        LevelData::Param(p) => match b.data() {
            LevelData::Param(q) => *p == *q,
            _ => false,
        },
    }
}

/// Whether two lists of levels are written the same way.
pub fn levels_same(a: &Vec<Level>, b: &Vec<Level>) -> (r: bool)
    ensures
        r == (a.deep_view() == b.deep_view()),
{
    if a.len() != b.len() {
        assert(a.deep_view().len() != b.deep_view().len());
        return false;
    }
    let mut i: usize = 0;
    while i < a.len()
        invariant
            i <= a.len(),
            a.len() == b.len(),
            forall|j: int| 0 <= j < i ==> a@[j]@ == b@[j]@,
        decreases a.len() - i,
    {
        if !level_same(&a[i], &b[i]) {
            assert(a.deep_view()[i as int] != b.deep_view()[i as int]);
            return false;
        }
        i = i + 1;
    }
    assert(a.deep_view() =~= b.deep_view());
    true
}

/// A summand of a level in normal form: a constant, or a parameter plus a
/// constant.
pub struct Atom {
    pub param: Option<u32>,
    pub add: Natural,
}

/// The mathematical reading of an [`Atom`].
pub struct AtomT {
    pub param: Option<u32>,
    pub add: nat,
}

impl DeepView for Atom {
    type V = AtomT;

    open spec fn deep_view(&self) -> AtomT {
        AtomT { param: self.param, add: self.add@ }
    }
}

/// Whether the level is positive where exactly the parameters in `zeros` vanish.
pub open spec fn positive_at(l: Univ, zeros: Seq<u32>) -> bool
    decreases l,
{
    match l {
        Univ::Zero => false,
        Univ::Succ(_) => true,
        Univ::Max(a, b) => positive_at(*a, zeros) || positive_at(*b, zeros),
        Univ::IMax(_, b) => positive_at(*b, zeros),
        Univ::Param(p) => !zeros.contains(p),
    }
}

/// The atoms whose maximum is `l + k`, where exactly the parameters in `zeros`
/// vanish.
pub open spec fn atoms_at(l: Univ, zeros: Seq<u32>, k: nat) -> Seq<AtomT>
    decreases l,
{
    match l {
        Univ::Zero => seq![AtomT { param: None, add: k }],
        Univ::Succ(a) => atoms_at(*a, zeros, k + 1),
        Univ::Max(a, b) => atoms_at(*a, zeros, k) + atoms_at(*b, zeros, k),
        Univ::IMax(a, b) => if positive_at(*b, zeros) {
            atoms_at(*a, zeros, k) + atoms_at(*b, zeros, k)
        } else {
            seq![AtomT { param: None, add: k }]
        },
        Univ::Param(p) => if zeros.contains(p) {
            seq![AtomT { param: None, add: k }]
        } else {
            seq![AtomT { param: Some(p), add: k }]
        },
    }
}

spec fn atom_value(a: AtomT, rho: spec_fn(u32) -> nat) -> nat {
    match a.param {
        None => a.add,
        Some(p) => rho(p) + a.add,
    }
}

spec fn is_max(s: Seq<AtomT>, rho: spec_fn(u32) -> nat, n: nat) -> bool {
    &&& forall|i: int| 0 <= i < s.len() ==> atom_value(#[trigger] s[i], rho) <= n
    &&& exists|i: int| 0 <= i < s.len() && atom_value(#[trigger] s[i], rho) == n
}

/// Whether a parameter occurs in a level.
pub open spec fn univ_mentions(l: Univ, p: u32) -> bool
    decreases l,
{
    match l {
        Univ::Zero => false,
        Univ::Succ(a) => univ_mentions(*a, p),
        Univ::Max(a, b) => univ_mentions(*a, p) || univ_mentions(*b, p),
        Univ::IMax(a, b) => univ_mentions(*a, p) || univ_mentions(*b, p),
        Univ::Param(q) => p == q,
    }
}

spec fn fits(l: Univ, zeros: Seq<u32>, rho: spec_fn(u32) -> nat) -> bool {
    forall|p: u32| #[trigger] univ_mentions(l, p) ==> (rho(p) == 0 <==> zeros.contains(p))
}

proof fn lemma_fits(l: Univ, zeros: Seq<u32>, rho: spec_fn(u32) -> nat)
    requires
        fits(l, zeros, rho),
    ensures
        match l {
            Univ::Zero => true,
            Univ::Succ(a) => fits(*a, zeros, rho),
            Univ::Max(a, b) => fits(*a, zeros, rho) && fits(*b, zeros, rho),
            Univ::IMax(a, b) => fits(*a, zeros, rho) && fits(*b, zeros, rho),
            Univ::Param(p) => rho(p) == 0 <==> zeros.contains(p),
        },
{
    match l {
        Univ::Zero => {},
        Univ::Succ(a) => {
            assert forall|p: u32| #[trigger] univ_mentions(*a, p) implies (rho(p) == 0
                <==> zeros.contains(p)) by {
                assert(univ_mentions(l, p));
            }
        },
        Univ::Max(a, b) => {
            assert forall|p: u32| #[trigger] univ_mentions(*a, p) implies (rho(p) == 0
                <==> zeros.contains(p)) by {
                assert(univ_mentions(l, p));
            }
            assert forall|p: u32| #[trigger] univ_mentions(*b, p) implies (rho(p) == 0
                <==> zeros.contains(p)) by {
                assert(univ_mentions(l, p));
            }
        },
        Univ::IMax(a, b) => {
            assert forall|p: u32| #[trigger] univ_mentions(*a, p) implies (rho(p) == 0
                <==> zeros.contains(p)) by {
                assert(univ_mentions(l, p));
            }
            assert forall|p: u32| #[trigger] univ_mentions(*b, p) implies (rho(p) == 0
                <==> zeros.contains(p)) by {
                assert(univ_mentions(l, p));
            }
        },
        Univ::Param(p) => {
            assert(univ_mentions(l, p));
        },
    }
}

proof fn lemma_positive(l: Univ, zeros: Seq<u32>, rho: spec_fn(u32) -> nat)
    requires
        fits(l, zeros, rho),
    ensures
        positive_at(l, zeros) <==> univ_value(l, rho) > 0,
    decreases l,
{
    lemma_fits(l, zeros, rho);
    match l {
        Univ::Zero => {},
        Univ::Succ(_) => {},
        Univ::Max(a, b) => {
            lemma_positive(*a, zeros, rho);
            lemma_positive(*b, zeros, rho);
        },
        Univ::IMax(_, b) => {
            lemma_positive(*b, zeros, rho);
        },
        Univ::Param(_) => {},
    }
}

proof fn lemma_join(s: Seq<AtomT>, t: Seq<AtomT>, rho: spec_fn(u32) -> nat, m: nat, n: nat)
    requires
        is_max(s, rho, m),
        is_max(t, rho, n),
    ensures
        is_max(s + t, rho, nat_max(m, n)),
{
    let u = s + t;
    let i = choose|i: int| 0 <= i < s.len() && atom_value(#[trigger] s[i], rho) == m;
    let j = choose|j: int| 0 <= j < t.len() && atom_value(#[trigger] t[j], rho) == n;
    assert(u[i] == s[i]);
    assert(u[s.len() + j] == t[j]);
    assert forall|x: int| 0 <= x < u.len() implies atom_value(#[trigger] u[x], rho) <= nat_max(
        m,
        n,
    ) by {
        if x < s.len() {
            assert(u[x] == s[x]);
        } else {
            assert(u[x] == t[x - s.len()]);
        }
    }
}

proof fn lemma_atoms(l: Univ, zeros: Seq<u32>, k: nat, rho: spec_fn(u32) -> nat)
    requires
        fits(l, zeros, rho),
    ensures
        is_max(atoms_at(l, zeros, k), rho, univ_value(l, rho) + k),
    decreases l,
{
    lemma_fits(l, zeros, rho);
    match l {
        Univ::Zero => {
            assert(atoms_at(l, zeros, k)[0] == AtomT { param: None, add: k });
        },
        Univ::Succ(a) => {
            lemma_atoms(*a, zeros, k + 1, rho);
        },
        Univ::Max(a, b) => {
            lemma_atoms(*a, zeros, k, rho);
            lemma_atoms(*b, zeros, k, rho);
            lemma_join(
                atoms_at(*a, zeros, k),
                atoms_at(*b, zeros, k),
                rho,
                univ_value(*a, rho) + k,
                univ_value(*b, rho) + k,
            );
        },
        Univ::IMax(a, b) => {
            lemma_positive(*b, zeros, rho);
            if positive_at(*b, zeros) {
                lemma_atoms(*a, zeros, k, rho);
                lemma_atoms(*b, zeros, k, rho);
                lemma_join(
                    atoms_at(*a, zeros, k),
                    atoms_at(*b, zeros, k),
                    rho,
                    univ_value(*a, rho) + k,
                    univ_value(*b, rho) + k,
                );
            } else {
                assert(atoms_at(l, zeros, k)[0] == AtomT { param: None, add: k });
            }
        },
        Univ::Param(p) => {
            if zeros.contains(p) {
                assert(atoms_at(l, zeros, k)[0] == AtomT { param: None, add: k });
            } else {
                assert(atoms_at(l, zeros, k)[0] == AtomT { param: Some(p), add: k });
            }
        },
    }
}

/// Whether an atom is at most another one at every positive assignment.
pub open spec fn below(x: AtomT, y: AtomT) -> bool {
    match x.param {
        None => match y.param {
            None => x.add <= y.add,
            Some(_) => x.add <= y.add + 1,
        },
        Some(p) => y.param == Some(p) && x.add <= y.add,
    }
}

/// Whether every atom of the first list is below some atom of the second.
pub open spec fn covered(s: Seq<AtomT>, t: Seq<AtomT>) -> bool {
    forall|i: int| 0 <= i < s.len() ==> #[trigger] dominated(s[i], t)
}

/// Whether the atom is below some atom of the list.
pub open spec fn dominated(x: AtomT, t: Seq<AtomT>) -> bool {
    exists|j: int| 0 <= j < t.len() && #[trigger] below(x, t[j])
}

spec fn add_bound(t: Seq<AtomT>) -> nat
    decreases t.len(),
{
    if t.len() == 0 {
        0
    } else {
        nat_max(t.last().add, add_bound(t.drop_last()))
    }
}

proof fn lemma_add_bound(t: Seq<AtomT>, j: int)
    requires
        0 <= j < t.len(),
    ensures
        t[j].add <= add_bound(t),
    decreases t.len(),
{
    if j < t.len() - 1 {
        lemma_add_bound(t.drop_last(), j);
        assert(t.drop_last()[j] == t[j]);
    }
}

spec fn free_params(t: Seq<AtomT>, zeros: Seq<u32>) -> bool {
    forall|i: int|
        0 <= i < t.len() ==> ((#[trigger] t[i]).param matches Some(p) ==> !zeros.contains(p))
}

proof fn lemma_free_params(l: Univ, zeros: Seq<u32>, k: nat)
    ensures
        free_params(atoms_at(l, zeros, k), zeros),
    decreases l,
{
    match l {
        Univ::Zero => {},
        Univ::Succ(a) => lemma_free_params(*a, zeros, k + 1),
        Univ::Max(a, b) => {
            lemma_free_params(*a, zeros, k);
            lemma_free_params(*b, zeros, k);
            lemma_free_concat(atoms_at(*a, zeros, k), atoms_at(*b, zeros, k), zeros);
        },
        Univ::IMax(a, b) => {
            lemma_free_params(*a, zeros, k);
            lemma_free_params(*b, zeros, k);
            lemma_free_concat(atoms_at(*a, zeros, k), atoms_at(*b, zeros, k), zeros);
        },
        Univ::Param(_) => {},
    }
}

proof fn lemma_free_concat(s: Seq<AtomT>, t: Seq<AtomT>, zeros: Seq<u32>)
    requires
        free_params(s, zeros),
        free_params(t, zeros),
    ensures
        free_params(s + t, zeros),
{
    assert forall|i: int| 0 <= i < (s + t).len() implies ((#[trigger] (s + t)[i]).param matches Some(
        p,
    ) ==> !zeros.contains(p)) by {
        if i < s.len() {
            assert((s + t)[i] == s[i]);
        } else {
            assert((s + t)[i] == t[i - s.len()]);
        }
    }
}

/// The assignment that tells an uncovered atom from the rest: zero on `zeros`,
/// large on one parameter, one elsewhere.
spec fn spike(zeros: Seq<u32>, p: Option<u32>, big: nat) -> spec_fn(u32) -> nat {
    |q: u32|
        if zeros.contains(q) {
            0nat
        } else if p == Some(q) {
            big
        } else {
            1nat
        }
}

proof fn lemma_uncovered(a: Univ, b: Univ, zeros: Seq<u32>, i: int)
    requires
        0 <= i < atoms_at(a, zeros, 0).len(),
        forall|j: int|
            0 <= j < atoms_at(b, zeros, 0).len() ==> !#[trigger] below(
                atoms_at(a, zeros, 0)[i],
                atoms_at(b, zeros, 0)[j],
            ),
    ensures
        exists|rho: spec_fn(u32) -> nat|
            (forall|p: u32| #[trigger] rho(p) == 0 <==> zeros.contains(p)) && #[trigger] univ_value(
                a,
                rho,
            ) > univ_value(b, rho),
{
    let s = atoms_at(a, zeros, 0);
    let t = atoms_at(b, zeros, 0);
    let x = s[i];
    let big = add_bound(t) + 2;
    let rho = spike(zeros, x.param, big);
    assert forall|p: u32| #[trigger] rho(p) == 0 <==> zeros.contains(p) by {}
    lemma_atoms(a, zeros, 0, rho);
    lemma_atoms(b, zeros, 0, rho);
    lemma_free_params(a, zeros, 0);
    lemma_free_params(b, zeros, 0);
    assert(atom_value(s[i], rho) <= univ_value(a, rho));
    let j = choose|j: int|
        0 <= j < t.len() && atom_value(#[trigger] t[j], rho) == univ_value(b, rho);
    lemma_add_bound(t, j);
    assert(!below(s[i], t[j]));
    assert(univ_value(a, rho) > univ_value(b, rho));
}

proof fn lemma_covered(a: Univ, b: Univ, zeros: Seq<u32>, rho: spec_fn(u32) -> nat)
    requires
        fits(a, zeros, rho),
        fits(b, zeros, rho),
        covered(atoms_at(a, zeros, 0), atoms_at(b, zeros, 0)),
        forall|p: u32| (univ_mentions(a, p) || univ_mentions(b, p)) && !zeros.contains(p)
            ==> #[trigger] rho(p) > 0,
    ensures
        univ_value(a, rho) <= univ_value(b, rho),
{
    let s = atoms_at(a, zeros, 0);
    let t = atoms_at(b, zeros, 0);
    lemma_atoms(a, zeros, 0, rho);
    lemma_atoms(b, zeros, 0, rho);
    lemma_free_params(b, zeros, 0);
    lemma_atom_params(b, zeros, 0);
    let i = choose|i: int|
        0 <= i < s.len() && atom_value(#[trigger] s[i], rho) == univ_value(a, rho);
    assert(dominated(s[i], t));
    let j = choose|j: int| 0 <= j < t.len() && #[trigger] below(s[i], t[j]);
    assert(atom_value(t[j], rho) <= univ_value(b, rho));
    match t[j].param {
        None => {},
        Some(p) => {
            assert(rho(p) > 0);
        },
    }
}

proof fn lemma_atom_params(l: Univ, zeros: Seq<u32>, k: nat)
    ensures
        forall|i: int|
            0 <= i < atoms_at(l, zeros, k).len() ==> ((#[trigger] atoms_at(
                l,
                zeros,
                k,
            )[i]).param matches Some(p) ==> univ_mentions(l, p)),
    decreases l,
{
    match l {
        Univ::Zero => {},
        Univ::Succ(a) => lemma_atom_params(*a, zeros, k + 1),
        Univ::Max(a, b) => {
            lemma_atom_params(*a, zeros, k);
            lemma_atom_params(*b, zeros, k);
            lemma_concat_params(l, *a, *b, zeros, k);
        },
        Univ::IMax(a, b) => {
            lemma_atom_params(*a, zeros, k);
            lemma_atom_params(*b, zeros, k);
            lemma_concat_params(l, *a, *b, zeros, k);
        },
        Univ::Param(_) => {},
    }
}

proof fn lemma_concat_params(l: Univ, a: Univ, b: Univ, zeros: Seq<u32>, k: nat)
    requires
        forall|p: u32| univ_mentions(a, p) || univ_mentions(b, p) ==> #[trigger] univ_mentions(
            l,
            p,
        ),
        forall|i: int|
            0 <= i < atoms_at(a, zeros, k).len() ==> ((#[trigger] atoms_at(
                a,
                zeros,
                k,
            )[i]).param matches Some(p) ==> univ_mentions(a, p)),
        forall|i: int|
            0 <= i < atoms_at(b, zeros, k).len() ==> ((#[trigger] atoms_at(
                b,
                zeros,
                k,
            )[i]).param matches Some(p) ==> univ_mentions(b, p)),
    ensures
        forall|i: int|
            0 <= i < (atoms_at(a, zeros, k) + atoms_at(b, zeros, k)).len() ==> ((#[trigger] (
            atoms_at(a, zeros, k) + atoms_at(b, zeros, k))[i]).param matches Some(p)
                ==> univ_mentions(l, p)),
{
    let s = atoms_at(a, zeros, k);
    let t = atoms_at(b, zeros, k);
    assert forall|i: int| 0 <= i < (s + t).len() implies ((#[trigger] (s + t)[i]).param matches Some(
        p,
    ) ==> univ_mentions(l, p)) by {
        if i < s.len() {
            assert((s + t)[i] == s[i]);
        } else {
            assert((s + t)[i] == t[i - s.len()]);
        }
    }
}

fn holds_id(ids: &Vec<u32>, id: u32) -> (r: bool)
    ensures
        r == ids@.contains(id),
{
    let mut i: usize = 0;
    while i < ids.len()
        invariant
            i <= ids.len(),
            forall|j: int| 0 <= j < i ==> ids@[j] != id,
        decreases ids.len() - i,
    {
        if ids[i] == id {
            assert(ids@[i as int] == id);
            return true;
        }
        i = i + 1;
    }
    false
}

fn positive_where(l: &Level, zeros: &Vec<u32>) -> (r: bool)
    ensures
        r == positive_at(l@, zeros@),
    decreases l,
{
    match l.data() {
        LevelData::Zero => false,
        LevelData::Succ(_) => true,
        LevelData::Max(a, b) => positive_where(a, zeros) || positive_where(b, zeros),
        LevelData::IMax(_, b) => positive_where(b, zeros),
        LevelData::Param(p) => !holds_id(zeros, *p),
    }
}

fn collect_atoms(l: &Level, zeros: &Vec<u32>, k: &Natural, out: &mut Vec<Atom>)
    ensures
        final(out).deep_view() == old(out).deep_view() + atoms_at(l@, zeros@, k@),
    decreases l,
{
    match l.data() {
        LevelData::Zero => {
            out.push(Atom { param: None, add: k.clone() });
            assert(out.deep_view() =~= old(out).deep_view() + atoms_at(l@, zeros@, k@));
        },
        LevelData::Succ(a) => {
            collect_atoms(a, zeros, &k.plus(&Natural::from_u64(1)), out);
        },
        LevelData::Max(a, b) => {
            collect_atoms(a, zeros, k, out);
            collect_atoms(b, zeros, k, out);
            assert(out.deep_view() =~= old(out).deep_view() + atoms_at(l@, zeros@, k@));
        },
        LevelData::IMax(a, b) => {
            if positive_where(b, zeros) {
                collect_atoms(a, zeros, k, out);
                collect_atoms(b, zeros, k, out);
            } else {
                out.push(Atom { param: None, add: k.clone() });
            }
            assert(out.deep_view() =~= old(out).deep_view() + atoms_at(l@, zeros@, k@));
        },
        LevelData::Param(p) => {
            if holds_id(zeros, *p) {
                out.push(Atom { param: None, add: k.clone() });
            } else {
                out.push(Atom { param: Some(*p), add: k.clone() });
            }
            assert(out.deep_view() =~= old(out).deep_view() + atoms_at(l@, zeros@, k@));
        },
    }
}

fn atom_below(x: &Atom, y: &Atom) -> (r: bool)
    ensures
        r == below(x.deep_view(), y.deep_view()),
{
    match x.param {
        None => match y.param {
            None => !y.add.less(&x.add),
            Some(_) => !y.add.plus(&Natural::from_u64(1)).less(&x.add),
        },
        Some(p) => match y.param {
            None => false,
            Some(q) => p == q && !y.add.less(&x.add),
        },
    }
}

fn atoms_cover(s: &Vec<Atom>, t: &Vec<Atom>) -> (r: bool)
    ensures
        r == covered(s.deep_view(), t.deep_view()),
{
    let ghost sv = s.deep_view();
    let ghost tv = t.deep_view();
    let mut i: usize = 0;
    while i < s.len()
        invariant
            i <= s.len(),
            sv == s.deep_view(),
            tv == t.deep_view(),
            forall|x: int| 0 <= x < i ==> #[trigger] dominated(sv[x], tv),
        decreases s.len() - i,
    {
        let mut found = false;
        let mut j: usize = 0;
        while j < t.len() && !found
            invariant
                j <= t.len(),
                i < s.len(),
                sv == s.deep_view(),
                tv == t.deep_view(),
                found ==> dominated(sv[i as int], tv),
                !found ==> forall|y: int| 0 <= y < j ==> !#[trigger] below(sv[i as int], tv[y]),
            decreases t.len() - j + (if found { 0int } else { 1int }),
        {
            if atom_below(&s[i], &t[j]) {
                assert(below(sv[i as int], tv[j as int]));
                found = true;
            } else {
                j = j + 1;
            }
        }
        if !found {
            assert(!dominated(sv[i as int], tv));
            return false;
        }
        i = i + 1;
    }
    true
}

/// The distinct parameters of a level in order of first occurrence, behind those
/// already collected.
pub open spec fn level_ids(l: Univ, seen: Seq<u32>) -> Seq<u32>
    decreases l,
{
    match l {
        Univ::Zero => seen,
        Univ::Succ(a) => level_ids(*a, seen),
        Univ::Max(a, b) => level_ids(*b, level_ids(*a, seen)),
        Univ::IMax(a, b) => level_ids(*b, level_ids(*a, seen)),
        Univ::Param(p) => if seen.contains(p) {
            seen
        } else {
            seen.push(p)
        },
    }
}

/// Collects the distinct parameters of a level in order of first occurrence.
pub fn collect_level_ids_level(l: &Level, out: &mut Vec<u32>)
    ensures
        final(out)@ == level_ids(l@, old(out)@),
    decreases l,
{
    match l.data() {
        LevelData::Zero => {},
        LevelData::Succ(a) => collect_level_ids_level(a, out),
        LevelData::Max(a, b) => {
            collect_level_ids_level(a, out);
            collect_level_ids_level(b, out);
        },
        LevelData::IMax(a, b) => {
            collect_level_ids_level(a, out);
            collect_level_ids_level(b, out);
        },
        LevelData::Param(p) => {
            if !holds_id(out, *p) {
                out.push(*p);
            }
        },
    }
}

/// The collected parameters are those that were there and those that occur, and
/// none is collected twice.
pub proof fn law_level_ids(l: Univ, seen: Seq<u32>)
    requires
        seen.no_duplicates(),
    ensures
        level_ids(l, seen).no_duplicates(),
        forall|p: u32| #[trigger]
            level_ids(l, seen).contains(p) <==> seen.contains(p) || univ_mentions(l, p),
    decreases l,
{
    match l {
        Univ::Zero => {},
        Univ::Succ(a) => law_level_ids(*a, seen),
        Univ::Max(a, b) => {
            law_level_ids(*a, seen);
            law_level_ids(*b, level_ids(*a, seen));
        },
        Univ::IMax(a, b) => {
            law_level_ids(*a, seen);
            law_level_ids(*b, level_ids(*a, seen));
        },
        Univ::Param(q) => {
            let r = level_ids(l, seen);
            if !seen.contains(q) {
                assert forall|p: u32| #[trigger] r.contains(p) <==> seen.contains(p) || p == q by {
                    if seen.contains(p) {
                        let i = choose|i: int| 0 <= i < seen.len() && seen[i] == p;
                        assert(r[i] == p);
                    }
                    if p == q {
                        assert(r[seen.len() as int] == p);
                    }
                }
            }
        },
    }
}

spec fn agrees(ids: Seq<u32>, n: int, zeros: Seq<u32>, rho: spec_fn(u32) -> nat) -> bool {
    forall|i: int|
        0 <= i < n ==> (rho(#[trigger] ids[i]) == 0 <==> zeros.contains(ids[i]))
}

spec fn le_where(a: Univ, b: Univ, ids: Seq<u32>, n: int, zeros: Seq<u32>) -> bool {
    forall|rho: spec_fn(u32) -> nat|
        #![trigger univ_value(a, rho)]
        agrees(ids, n, zeros, rho) ==> univ_value(a, rho) <= univ_value(b, rho)
}

proof fn lemma_split(a: Univ, b: Univ, ids: Seq<u32>, n: int, zeros: Seq<u32>)
    requires
        0 <= n < ids.len(),
        ids.no_duplicates(),
        forall|p: u32| zeros.contains(p) ==> exists|i: int| 0 <= i < n && #[trigger] ids[i] == p,
    ensures
        le_where(a, b, ids, n, zeros) <==> le_where(a, b, ids, n + 1, zeros) && le_where(
            a,
            b,
            ids,
            n + 1,
            zeros.push(ids[n]),
        ),
{
    let more = zeros.push(ids[n]);
    assert(!zeros.contains(ids[n]));
    assert(more.contains(ids[n])) by {
        assert(more[zeros.len() as int] == ids[n]);
    }
    assert forall|p: u32| p != ids[n] implies (more.contains(p) <==> zeros.contains(p)) by {
        if zeros.contains(p) {
            let i = choose|i: int| 0 <= i < zeros.len() && zeros[i] == p;
            assert(more[i] == p);
        }
    }
    if le_where(a, b, ids, n, zeros) {
        assert forall|rho: spec_fn(u32) -> nat|
            #![trigger univ_value(a, rho)]
            agrees(ids, n + 1, zeros, rho) || agrees(ids, n + 1, more, rho) implies univ_value(
            a,
            rho,
        ) <= univ_value(b, rho) by {
            assert(agrees(ids, n, zeros, rho)) by {
                assert forall|i: int| 0 <= i < n implies (rho(#[trigger] ids[i]) == 0
                    <==> zeros.contains(ids[i])) by {
                    assert(ids[i] != ids[n]);
                }
            }
        }
    }
    if le_where(a, b, ids, n + 1, zeros) && le_where(a, b, ids, n + 1, more) {
        assert forall|rho: spec_fn(u32) -> nat|
            #![trigger univ_value(a, rho)]
            agrees(ids, n, zeros, rho) implies univ_value(a, rho) <= univ_value(b, rho) by {
            if rho(ids[n]) == 0 {
                assert(agrees(ids, n + 1, more, rho)) by {
                    assert forall|i: int| 0 <= i < n + 1 implies (rho(#[trigger] ids[i]) == 0
                        <==> more.contains(ids[i])) by {
                        if i < n {
                            assert(ids[i] != ids[n]);
                        }
                    }
                }
            } else {
                assert(agrees(ids, n + 1, zeros, rho));
            }
        }
    }
}

proof fn lemma_leaf(a: Univ, b: Univ, ids: Seq<u32>, zeros: Seq<u32>)
    requires
        forall|p: u32| univ_mentions(a, p) || univ_mentions(b, p) ==> #[trigger] ids.contains(p),
    ensures
        le_where(a, b, ids, ids.len() as int, zeros) <==> covered(
            atoms_at(a, zeros, 0),
            atoms_at(b, zeros, 0),
        ),
{
    let s = atoms_at(a, zeros, 0);
    let t = atoms_at(b, zeros, 0);
    let n = ids.len() as int;
    if covered(s, t) {
        assert forall|rho: spec_fn(u32) -> nat|
            #![trigger univ_value(a, rho)]
            agrees(ids, n, zeros, rho) implies univ_value(a, rho) <= univ_value(b, rho) by {
            assert forall|p: u32| univ_mentions(a, p) || univ_mentions(b, p) implies (#[trigger] rho(
                p,
            ) == 0 <==> zeros.contains(p)) by {
                assert(ids.contains(p));
                let i = choose|i: int| 0 <= i < ids.len() && ids[i] == p;
                assert(ids[i] == p);
            }
            assert(fits(a, zeros, rho));
            assert(fits(b, zeros, rho));
            lemma_covered(a, b, zeros, rho);
        }
    } else {
        let i = choose|i: int| 0 <= i < s.len() && !#[trigger] dominated(s[i], t);
        lemma_uncovered(a, b, zeros, i);
        let rho = choose|rho: spec_fn(u32) -> nat|
            (forall|p: u32| #[trigger] rho(p) == 0 <==> zeros.contains(p)) && #[trigger] univ_value(
                a,
                rho,
            ) > univ_value(b, rho);
        assert(agrees(ids, n, zeros, rho));
    }
}

fn leq_split(a: &Level, b: &Level, ids: &Vec<u32>, n: usize, zeros: &Vec<u32>) -> (r: bool)
    requires
        n <= ids.len(),
        ids@.no_duplicates(),
        forall|p: u32| univ_mentions(a@, p) || univ_mentions(b@, p) ==> #[trigger] ids@.contains(p),
        forall|p: u32| #[trigger]
            zeros@.contains(p) ==> exists|i: int| 0 <= i < n && #[trigger] ids@[i] == p,
    ensures
        r == le_where(a@, b@, ids@, n as int, zeros@),
    decreases ids.len() - n,
{
    if n == ids.len() {
        proof {
            lemma_leaf(a@, b@, ids@, zeros@);
        }
        let mut s: Vec<Atom> = Vec::new();
        let mut t: Vec<Atom> = Vec::new();
        collect_atoms(a, zeros, &Natural::zero(), &mut s);
        collect_atoms(b, zeros, &Natural::zero(), &mut t);
        assert(s.deep_view() =~= atoms_at(a@, zeros@, 0));
        assert(t.deep_view() =~= atoms_at(b@, zeros@, 0));
        return atoms_cover(&s, &t);
    }
    proof {
        lemma_split(a@, b@, ids@, n as int, zeros@);
    }
    let mut more = zeros.clone();
    assert(more@ =~= zeros@);
    more.push(ids[n]);
    assert forall|p: u32| #[trigger] more@.contains(p) implies exists|i: int|
        0 <= i < n + 1 && #[trigger] ids@[i] == p by {
        if p == ids@[n as int] {
            assert(ids@[n as int] == p);
        } else {
            let k = choose|k: int| 0 <= k < more@.len() && more@[k] == p;
            assert(zeros@[k] == p);
            assert(zeros@.contains(p));
            let i = choose|i: int| 0 <= i < n && #[trigger] ids@[i] == p;
            assert(ids@[i] == p);
        }
    }
    assert forall|p: u32| #[trigger] zeros@.contains(p) implies exists|i: int|
        0 <= i < n + 1 && #[trigger] ids@[i] == p by {
        let i = choose|i: int| 0 <= i < n && #[trigger] ids@[i] == p;
        assert(ids@[i] == p);
    }
    leq_split(a, b, ids, n + 1, zeros) && leq_split(a, b, ids, n + 1, &more)
}

/// Whether the first level is at most the second, whatever the parameters are.
///
/// Every way in which parameters may vanish is tried; each fixes the value of
/// every `imax` and leaves two maxima of atoms to compare.
pub fn leq(a: &Level, b: &Level) -> (r: bool)
    ensures
        r == univ_le(a@, b@),
{
    let mut ids: Vec<u32> = Vec::new();
    collect_level_ids_level(a, &mut ids);
    collect_level_ids_level(b, &mut ids);
    let none: Vec<u32> = Vec::new();
    proof {
        law_level_ids(a@, Seq::<u32>::empty());
        law_level_ids(b@, level_ids(a@, Seq::<u32>::empty()));
    }
    let r = leq_split(a, b, &ids, 0, &none);
    proof {
        assert(le_where(a@, b@, ids@, 0, none@) == univ_le(a@, b@)) by {
            if le_where(a@, b@, ids@, 0, none@) {
                assert forall|rho: spec_fn(u32) -> nat| #[trigger]
                    univ_value(a@, rho) <= univ_value(b@, rho) by {
                    assert(agrees(ids@, 0, none@, rho));
                }
            }
        }
    }
    r
}

/// The value of a level by its shape: a successor is one more, a maximum the larger
/// of two; the level of a function type is zero where that of the values is, and
/// else the larger of two; a parameter is what it is given.
pub proof fn law_level_value(a: Univ, b: Univ, p: u32, rho: spec_fn(u32) -> nat)
    ensures
        univ_value(Univ::Zero, rho) == 0,
        univ_value(Univ::Succ(Box::new(a)), rho) == univ_value(a, rho) + 1,
        univ_value(Univ::Param(p), rho) == rho(p),
        ({
            let x = univ_value(a, rho);
            let y = univ_value(b, rho);
            let most = univ_value(Univ::Max(Box::new(a), Box::new(b)), rho);
            let product = univ_value(Univ::IMax(Box::new(a), Box::new(b)), rho);
            &&& most >= x && most >= y && (most == x || most == y)
            &&& y == 0 ==> product == 0
            &&& y > 0 ==> product == most
        }),
{
}

/// Levels are compared at every value of the parameters: where one is at most
/// another, no values make it larger, and where it is not, some do. Alike for
/// equality and for being positive.
pub proof fn law_level_order(a: Univ, b: Univ, rho: spec_fn(u32) -> nat)
    ensures
        univ_le(a, b) ==> univ_value(a, rho) <= univ_value(b, rho),
        !univ_le(a, b) ==> exists|r: spec_fn(u32) -> nat| #[trigger]
            univ_value(a, r) > univ_value(b, r),
        univ_eq(a, b) ==> univ_value(a, rho) == univ_value(b, rho),
        !univ_eq(a, b) ==> exists|r: spec_fn(u32) -> nat| #[trigger]
            univ_value(a, r) != univ_value(b, r),
        univ_positive(a) ==> univ_value(a, rho) > 0,
        !univ_positive(a) ==> exists|r: spec_fn(u32) -> nat| #[trigger] univ_value(a, r) == 0,
{
}

/// Levels agree exactly where each is at most the other.
pub proof fn law_le_antisymmetric(a: Univ, b: Univ)
    ensures
        univ_eq(a, b) <==> univ_le(a, b) && univ_le(b, a),
{
    if univ_le(a, b) && univ_le(b, a) {
        assert forall|rho: spec_fn(u32) -> nat| #[trigger]
            univ_value(a, rho) == univ_value(b, rho) by {
            assert(univ_value(b, rho) <= univ_value(a, rho));
        }
    }
    if univ_eq(a, b) {
        assert forall|rho: spec_fn(u32) -> nat| #[trigger]
            univ_value(b, rho) <= univ_value(a, rho) by {
            assert(univ_value(a, rho) == univ_value(b, rho));
        }
    }
}

/// Whether two levels agree, whatever the parameters are.
pub fn is_def_eq(a: &Level, b: &Level) -> (r: bool)
    ensures
        r == univ_eq(a@, b@),
{
    if level_same(a, b) {
        return true;
    }
    proof {
        law_le_antisymmetric(a@, b@);
    }
    leq(a, b) && leq(b, a)
}

/// Whether two lists of levels agree entry by entry.
pub fn levels_def_eq(a: &Vec<Level>, b: &Vec<Level>) -> (r: bool)
    ensures
        r == univs_eq(a.deep_view(), b.deep_view()),
{
    let ghost av = a.deep_view();
    let ghost bv = b.deep_view();
    if a.len() != b.len() {
        return false;
    }
    let mut i: usize = 0;
    while i < a.len()
        invariant
            i <= a.len(),
            a.len() == b.len(),
            av == a.deep_view(),
            bv == b.deep_view(),
            forall|j: int| 0 <= j < i ==> #[trigger] univ_eq(av[j], bv[j]),
        decreases a.len() - i,
    {
        if !is_def_eq(&a[i], &b[i]) {
            assert(!univ_eq(av[i as int], bv[i as int]));
            return false;
        }
        i = i + 1;
    }
    true
}

proof fn lemma_positive_always(l: Univ, rho: spec_fn(u32) -> nat)
    requires
        forall|p: u32| #[trigger] rho(p) == 0,
    ensures
        never_zero(l) <==> univ_value(l, rho) > 0,
        never_zero(l) ==> univ_positive(l),
    decreases l,
{
    match l {
        Univ::Zero => {},
        Univ::Succ(_) => {},
        Univ::Max(a, b) => {
            lemma_positive_always(*a, rho);
            lemma_positive_always(*b, rho);
            if never_zero(*a) {
                assert forall|s: spec_fn(u32) -> nat| #[trigger] univ_value(l, s) > 0 by {
                    assert(univ_value(*a, s) > 0);
                }
            }
            if never_zero(*b) {
                assert forall|s: spec_fn(u32) -> nat| #[trigger] univ_value(l, s) > 0 by {
                    assert(univ_value(*b, s) > 0);
                }
            }
        },
        Univ::IMax(a, b) => {
            lemma_positive_always(*b, rho);
            if never_zero(*b) {
                assert forall|s: spec_fn(u32) -> nat| #[trigger] univ_value(l, s) > 0 by {
                    assert(univ_value(*b, s) > 0);
                }
            }
        },
        Univ::Param(_) => {},
    }
}

spec fn never_zero(l: Univ) -> bool
    decreases l,
{
    match l {
        Univ::Zero => false,
        Univ::Succ(_) => true,
        Univ::Max(a, b) => never_zero(*a) || never_zero(*b),
        Univ::IMax(_, b) => never_zero(*b),
        Univ::Param(_) => false,
    }
}

fn is_never_zero(l: &Level) -> (r: bool)
    ensures
        r == never_zero(l@),
    decreases l,
{
    match l.data() {
        LevelData::Zero => false,
        LevelData::Succ(_) => true,
        LevelData::Max(a, b) => is_never_zero(a) || is_never_zero(b),
        LevelData::IMax(_, b) => is_never_zero(b),
        LevelData::Param(_) => false,
    }
}

/// Whether the level is positive, whatever the parameters are.
pub fn is_not_zero(l: &Level) -> (r: bool)
    ensures
        r == univ_positive(l@),
{
    proof {
        let rho = |p: u32| 0nat;
        lemma_positive_always(l@, rho);
        if !never_zero(l@) {
            assert(!(univ_value(l@, rho) > 0));
        }
    }
    is_never_zero(l)
}

/// The place of the last parameter with the given name, if any.
pub open spec fn last_index(ps: Seq<u32>, p: u32) -> Option<int>
    decreases ps.len(),
{
    if ps.len() == 0 {
        None
    } else if ps.last() == p {
        Some(ps.len() - 1)
    } else {
        last_index(ps.drop_last(), p)
    }
}

/// The parameters that a substitution speaks of: those that a level stands for.
pub open spec fn subst_domain(ps: Seq<u32>, us: Seq<Univ>) -> Seq<u32> {
    if ps.len() <= us.len() {
        ps
    } else {
        ps.take(us.len() as int)
    }
}

/// The level with each parameter `ps[i]` replaced by `us[i]`.
pub open spec fn univ_subst(l: Univ, ps: Seq<u32>, us: Seq<Univ>) -> Univ
    decreases l,
{
    match l {
        Univ::Zero => l,
        Univ::Succ(a) => Univ::Succ(Box::new(univ_subst(*a, ps, us))),
        Univ::Max(a, b) => Univ::Max(
            Box::new(univ_subst(*a, ps, us)),
            Box::new(univ_subst(*b, ps, us)),
        ),
        Univ::IMax(a, b) => Univ::IMax(
            Box::new(univ_subst(*a, ps, us)),
            Box::new(univ_subst(*b, ps, us)),
        ),
        Univ::Param(p) => match last_index(subst_domain(ps, us), p) {
            Some(i) => us[i],
            None => l,
        },
    }
}

/// The levels of a list, each substituted.
pub open spec fn univs_subst(ls: Seq<Univ>, ps: Seq<u32>, us: Seq<Univ>) -> Seq<Univ> {
    Seq::new(ls.len(), |i: int| univ_subst(ls[i], ps, us))
}

fn find_last(ps: &Vec<u32>, limit: usize, p: u32) -> (r: Option<usize>)
    requires
        limit <= ps.len(),
    ensures
        match r {
            Some(i) => last_index(ps@.take(limit as int), p) == Some(i as int) && i < limit,
            None => last_index(ps@.take(limit as int), p) is None,
        },
    decreases limit,
{
    if limit == 0 {
        return None;
    }
    assert(ps@.take(limit as int).drop_last() =~= ps@.take(limit - 1));
    if ps[limit - 1] == p {
        return Some(limit - 1);
    }
    find_last(ps, limit - 1, p)
}

/// The level with each parameter `ps[i]` replaced by `us[i]`.
pub fn subst(l: &Level, ps: &Vec<u32>, us: &Vec<Level>) -> (r: Level)
    ensures
        r@ == univ_subst(l@, ps@, us.deep_view()),
    decreases l,
{
    match l.data() {
        LevelData::Zero => l.clone(),
        LevelData::Succ(a) => succ(subst(a, ps, us)),
        LevelData::Max(a, b) => max(subst(a, ps, us), subst(b, ps, us)),
        LevelData::IMax(a, b) => imax(subst(a, ps, us), subst(b, ps, us)),
        LevelData::Param(p) => {
            let limit: usize = if ps.len() <= us.len() {
                ps.len()
            } else {
                us.len()
            };
            assert(ps@.take(limit as int) =~= subst_domain(ps@, us.deep_view()));
            match find_last(ps, limit, *p) {
                Some(i) => us[i].clone(),
                None => l.clone(),
            }
        },
    }
}

/// The levels of a list, each substituted.
pub fn subst_all(ls: &Vec<Level>, ps: &Vec<u32>, us: &Vec<Level>) -> (r: Vec<Level>)
    ensures
        r.deep_view() == univs_subst(ls.deep_view(), ps@, us.deep_view()),
{
    let mut out: Vec<Level> = Vec::new();
    let mut i: usize = 0;
    while i < ls.len()
        invariant
            i <= ls.len(),
            out.len() == i,
            forall|j: int|
                0 <= j < i ==> (#[trigger] out@[j])@ == univ_subst(
                    ls@[j]@,
                    ps@,
                    us.deep_view(),
                ),
        decreases ls.len() - i,
    {
        out.push(subst(&ls[i], ps, us));
        i = i + 1;
    }
    assert(out.deep_view() =~= univs_subst(ls.deep_view(), ps@, us.deep_view()));
    out
}

/// A substituted level has the value of the level where each replaced parameter
/// has the value of what replaces it.
pub proof fn law_subst_value(
    l: Univ,
    ps: Seq<u32>,
    us: Seq<Univ>,
    rho: spec_fn(u32) -> nat,
)
    ensures
        univ_value(univ_subst(l, ps, us), rho) == univ_value(
            l,
            |p: u32|
                match last_index(subst_domain(ps, us), p) {
                    Some(i) => univ_value(us[i], rho),
                    None => rho(p),
                },
        ),
    decreases l,
{
    match l {
        Univ::Zero => {},
        Univ::Succ(a) => law_subst_value(*a, ps, us, rho),
        Univ::Max(a, b) => {
            law_subst_value(*a, ps, us, rho);
            law_subst_value(*b, ps, us, rho);
        },
        Univ::IMax(a, b) => {
            law_subst_value(*a, ps, us, rho);
            law_subst_value(*b, ps, us, rho);
        },
        Univ::Param(_) => {},
    }
}

/// Whether a list goes on from another one with numbers that are not before them.
pub open spec fn goes_on_fresh(r: Seq<u32>, seen: Seq<u32>) -> bool {
    &&& seen.len() <= r.len()
    &&& r.take(seen.len() as int) == seen
    &&& forall|i: int, j: int|
        seen.len() <= i < r.len() && 0 <= j < i ==> #[trigger] r[i] != #[trigger] r[j]
}

/// One list that goes on from another goes on from what that one goes on from.
pub proof fn law_goes_on_further(r: Seq<u32>, mid: Seq<u32>, seen: Seq<u32>)
    requires
        goes_on_fresh(mid, seen),
        goes_on_fresh(r, mid),
    ensures
        goes_on_fresh(r, seen),
{
    assert(r.take(seen.len() as int) =~= r.take(mid.len() as int).take(seen.len() as int));
    assert forall|i: int, j: int| seen.len() <= i < r.len() && 0 <= j < i implies #[trigger] r[i]
        != #[trigger] r[j] by {
        if i < mid.len() {
            assert(r.take(mid.len() as int)[i] == r[i]);
            assert(r.take(mid.len() as int)[j] == r[j]);
            assert(mid[i] != mid[j]);
        }
    }
}

/// Collecting the parameters of a level leaves those collected before in their
/// places and appends those that occur and are not there, none twice. It adds none
/// where all of them are there.
pub proof fn law_level_ids_append(l: Univ, seen: Seq<u32>)
    ensures
        goes_on_fresh(level_ids(l, seen), seen),
        forall|p: u32| #[trigger]
            level_ids(l, seen).contains(p) <==> seen.contains(p) || univ_mentions(l, p),
        (forall|p: u32| #[trigger] univ_mentions(l, p) ==> seen.contains(p)) ==> level_ids(l, seen)
            == seen,
    decreases l, 1nat,
{
    let r = level_ids(l, seen);
    match l {
        Univ::Zero => {
            assert(r.take(seen.len() as int) =~= seen);
        },
        Univ::Succ(a) => {
            law_level_ids_append(*a, seen);
            if forall|p: u32| #[trigger] univ_mentions(l, p) ==> seen.contains(p) {
                assert forall|p: u32| #[trigger] univ_mentions(*a, p) implies seen.contains(p) by {
                    assert(univ_mentions(l, p));
                }
            }
        },
        Univ::Max(a, b) => lemma_append_two(l, *a, *b, seen),
        Univ::IMax(a, b) => lemma_append_two(l, *a, *b, seen),
        Univ::Param(q) => {
            assert(univ_mentions(l, q));
            assert(r.take(seen.len() as int) =~= seen);
            if !seen.contains(q) {
                assert(r[seen.len() as int] == q);
                assert forall|p: u32| #[trigger] r.contains(p) <==> seen.contains(p) || p == q by {
                    if seen.contains(p) {
                        let i = choose|i: int| 0 <= i < seen.len() && seen[i] == p;
                        assert(r[i] == p);
                    }
                }
            }
        },
    }
}

proof fn lemma_append_two(l: Univ, a: Univ, b: Univ, seen: Seq<u32>)
    requires
        decreases_to!(l => a),
        decreases_to!(l => b),
        level_ids(l, seen) == level_ids(b, level_ids(a, seen)),
        forall|p: u32| #[trigger] univ_mentions(l, p) <==> univ_mentions(a, p) || univ_mentions(b, p),
    ensures
        goes_on_fresh(level_ids(l, seen), seen),
        forall|p: u32| #[trigger]
            level_ids(l, seen).contains(p) <==> seen.contains(p) || univ_mentions(l, p),
        (forall|p: u32| #[trigger] univ_mentions(l, p) ==> seen.contains(p)) ==> level_ids(l, seen)
            == seen,
    decreases l, 0nat,
{
    law_level_ids_append(a, seen);
    law_level_ids_append(b, level_ids(a, seen));
    law_goes_on_further(level_ids(l, seen), level_ids(a, seen), seen);
    if forall|p: u32| #[trigger] univ_mentions(l, p) ==> seen.contains(p) {
        assert forall|p: u32| #[trigger] univ_mentions(a, p) implies seen.contains(p) by {
            assert(univ_mentions(l, p));
        }
        assert forall|p: u32| #[trigger] univ_mentions(b, p) implies seen.contains(p) by {
            assert(univ_mentions(l, p));
        }
    }
}

} // verus!
