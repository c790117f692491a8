//! Contexts of bound variables, and the identities of such contexts.

use crate::expr::{
    law_loose_is_used, law_uses_below_loose, lift, loose, loose_bvar_range, occurs_bvar,
    rec_expr_eq, shift, uses_bvar, Expr, Term,
};
use rustc_hash::{FxBuildHasher, FxHashMap};
use vstd::prelude::*;

verus! {

/// The types of the bound variables in scope, the innermost one last. Each type
/// is recorded as it stood when it was bound.
pub struct Ctx {
    tys: Vec<Expr>,
}

impl View for Ctx {
    type V = Seq<Term>;

    closed spec fn view(&self) -> Seq<Term> {
        self.tys.deep_view()
    }
}

impl DeepView for Ctx {
    type V = Seq<Term>;

    open spec fn deep_view(&self) -> Seq<Term> {
        self@
    }
}

impl Clone for Ctx {
    fn clone(&self) -> (r: Self)
        ensures
            r@ == self@,
    {
        Ctx { tys: crate::expr::clone_exprs(&self.tys) }
    }
}

/// The type of the variable `i`, moved to where it is read.
pub open spec fn local_type(ctx: Seq<Term>, i: u32) -> Option<Term> {
    if i < ctx.len() {
        Some(lift(ctx[ctx.len() - 1 - i], i + 1, 0))
    } else {
        None
    }
}

impl Ctx {
    /// The context without variables.
    pub fn new() -> (r: Ctx)
        ensures
            r@ == Seq::<Term>::empty(),
    {
        let tys: Vec<Expr> = Vec::new();
        assert(tys.deep_view() =~= Seq::<Term>::empty());
        Ctx { tys }
    }

    /// Binds a variable.
    pub fn push(&mut self, ty: Expr)
        ensures
            final(self)@ == old(self)@.push(ty@),
    {
        self.tys.push(ty);
        assert(self.tys.deep_view() =~= old(self).tys.deep_view().push(ty@));
    }

    /// The context with one more variable.
    pub fn extended(&self, ty: &Expr) -> (r: Ctx)
        ensures
            r@ == self@.push(ty@),
    {
        let mut c = self.clone();
        c.push(ty.clone());
        c
    }

    /// The number of variables.
    pub fn len(&self) -> (r: usize)
        ensures
            r as nat == self@.len(),
    {
        self.tys.len()
    }

    /// Whether there are no variables.
    pub fn is_empty(&self) -> (r: bool)
        ensures
            r == (self@.len() == 0),
    {
        self.tys.len() == 0
    }

    /// The type recorded at a position, counted from the outermost one.
    pub fn at(&self, i: usize) -> (r: &Expr)
        requires
            i < self@.len(),
        ensures
            r@ == self@[i as int],
    {
        &self.tys[i]
    }
}

/// The type of the variable `i`, moved to where it is read.
pub fn local_ty(ctx: &Ctx, i: u32) -> (r: Option<Expr>)
    ensures
        r.deep_view() == local_type(ctx@, i),
{
    let n: usize = ctx.len();
    if (i as u64) >= (n as u64) {
        return None;
    }
    Some(shift(ctx.at(n - 1 - i as usize), i as i64 + 1, 0))
}

/// The hasher of `rustc_hash`, declared so that its maps can be held.
#[verifier::external_type_specification]
#[verifier::external_body]
pub struct ExFxBuildHasher(FxBuildHasher);

type IdMap = FxHashMap<(u64, u64), u64>;

/// `FxHashMap::default`: a map without entries.
#[verifier::external_body]
fn no_entries() -> (r: IdMap)
    ensures
        r@ =~= (Map::<(u64, u64), u64>::empty()),
{
    FxHashMap::default()
}

/// `FxHashMap::get`: what the map holds under a key.
#[verifier::external_body]
fn entry_at(m: &IdMap, key: (u64, u64)) -> (r: Option<u64>)
    ensures
        r == (if m@.contains_key(key) {
            Some(m@[key])
        } else {
            None
        }),
{
    m.get(&key).copied()
}

/// `FxHashMap::insert`: the map with the value put under the key.
#[verifier::external_body]
fn put_entry(m: &mut IdMap, key: (u64, u64), id: u64)
    ensures
        final(m)@ == old(m)@.insert(key, id),
{
    m.insert(key, id);
}

/// Gives each context an identity of its own: equal sequences of types have
/// equal identities and no others do. The empty context has the identity zero.
pub struct CtxIds {
    entries: IdMap,
    next: u64,
    types: Vec<Expr>,
    meaning: Ghost<Seq<Seq<Term>>>,
}

impl CtxIds {
    /// The sequence of types that an identity stands for.
    pub closed spec fn types_of(&self, id: u64) -> Seq<Term> {
        self.meaning@[id as int]
    }

    /// Whether the identity has been given out.
    pub closed spec fn known(&self, id: u64) -> bool {
        id < self.next
    }

    /// How many identities have been given out.
    pub closed spec fn count(&self) -> nat {
        self.next as nat
    }

    /// The invariant of the table.
    pub closed spec fn wf(&self) -> bool {
        &&& self.next >= 1
        &&& self.meaning@.len() == self.next
        &&& self.meaning@[0] == Seq::<Term>::empty()
        &&& self.meaning@.no_duplicates()
        &&& self.types.deep_view().no_duplicates()
        &&& self.types.len() < self.next
        &&& forall|k: (u64, u64)| #[trigger]
            self.entries@.contains_key(k) ==> k.0 < self.next && k.1 < self.types.len()
                && self.entries@[k] < self.next && self.meaning@[self.entries@[k] as int]
                == self.meaning@[k.0 as int].push(self.types.deep_view()[k.1 as int])
        &&& forall|id: u64| 1 <= id < self.next ==> #[trigger] self.given(id)
    }

    spec fn given(&self, id: u64) -> bool {
        exists|k: (u64, u64)| #[trigger] self.entries@.contains_key(k) && self.entries@[k] == id
    }

    /// Whether everything known before is known still, and means the same.
    pub open spec fn extends(&self, before: &CtxIds) -> bool {
        &&& forall|id: u64| #[trigger]
            before.known(id) ==> self.known(id) && self.types_of(id) == before.types_of(id)
        &&& before.count() <= self.count()
    }

    /// A table that knows the empty context only.
    pub fn new() -> (r: CtxIds)
        ensures
            r.wf(),
            r.count() == 1,
            r.known(0),
            r.types_of(0) == Seq::<Term>::empty(),
    {
        let ghost start = Seq::<Seq<Term>>::empty().push(Seq::<Term>::empty());
        CtxIds { entries: no_entries(), next: 1, types: Vec::new(), meaning: Ghost(start) }
    }
}

impl CtxIds {
    /// Whether identities can still be given to `n` more contexts.
    pub(crate) fn has_room(&self, n: usize) -> (r: bool)
        ensures
            r == (self.count() + n <= u64::MAX),
    {
        n as u64 <= u64::MAX - self.next
    }
}

/// Equal identities stand for equal contexts, and equal contexts have equal
/// identities.
pub proof fn law_ids_identify(ids: CtxIds, a: u64, b: u64)
    requires
        ids.wf(),
        ids.known(a),
        ids.known(b),
    ensures
        a == b <==> ids.types_of(a) == ids.types_of(b),
        ids.types_of(0) == Seq::<Term>::empty(),
        ids.known(0),
{
}

fn find_type(types: &Vec<Expr>, ty: &Expr) -> (r: Option<usize>)
    ensures
        match r {
            Some(i) => i < types.len() && types@[i as int]@ == ty@,
            None => forall|i: int| 0 <= i < types.len() ==> types@[i]@ != ty@,
        },
{
    let mut i: usize = 0;
    while i < types.len()
        invariant
            i <= types.len(),
            forall|j: int| 0 <= j < i ==> types@[j]@ != ty@,
        decreases types.len() - i,
    {
        if rec_expr_eq(&types[i], ty) {
            return Some(i);
        }
        i = i + 1;
    }
    None
}

/// The identity of the context that `ty` extends, given that of the one it is
/// bound in.
pub fn intern_ctx_id(ids: &mut CtxIds, parent: u64, ty: &Expr) -> (r: u64)
    requires
        old(ids).wf(),
        old(ids).known(parent),
        old(ids).count() < u64::MAX,
    ensures
        final(ids).wf(),
        final(ids).extends(old(ids)),
        final(ids).count() <= old(ids).count() + 1,
        final(ids).known(r),
        final(ids).types_of(r) == old(ids).types_of(parent).push(ty@),
{
    let ghost meaning = ids.meaning@;
    let slot: usize = match find_type(&ids.types, ty) {
        Some(i) => i,
        None => ids.types.len(),
    };
    if slot < ids.types.len() {
        match entry_at(&ids.entries, (parent, slot as u64)) {
            Some(id) => {
                return id;
            },
            None => {},
        }
    }
    let ghost wanted = meaning[parent as int].push(ty@);
    proof {
        assert(!meaning.contains(wanted)) by {
            if meaning.contains(wanted) {
                let id = choose|id: int| 0 <= id < meaning.len() && meaning[id] == wanted;
                assert(id >= 1);
                assert(ids.given(id as u64));
                let k = choose|k: (u64, u64)| #[trigger]
                    ids.entries@.contains_key(k) && ids.entries@[k] == id;
                let t = ids.types.deep_view()[k.1 as int];
                assert(meaning[id] == meaning[k.0 as int].push(t));
                assert(wanted.drop_last() =~= meaning[parent as int]);
                assert(wanted.drop_last() =~= meaning[k.0 as int]);
                assert(wanted.last() == t);
                assert(k.0 == parent);
                assert(ids.types@[k.1 as int]@ == ty@);
                assert(slot < ids.types.len());
                assert(ids.types.deep_view()[slot as int] == ids.types.deep_view()[k.1 as int]);
                assert(k == (parent, slot as u64));
            }
        }
    }
    let id: u64 = ids.next;
    let ghost before = *ids;
    if slot == ids.types.len() {
        ids.types.push(ty.clone());
    }
    proof {
        assert forall|i: int| 0 <= i < before.types.len() implies ids.types.deep_view()[i]
            == #[trigger] before.types.deep_view()[i] by {}
        assert(ids.types.deep_view()[slot as int] == ty@);
        let was = before.types.deep_view();
        let now = ids.types.deep_view();
        assert forall|i: int, j: int|
            0 <= i < now.len() && 0 <= j < now.len() && i != j implies now[i] != now[j] by {
            if i < was.len() && j < was.len() {
                assert(was[i] == now[i] && was[j] == now[j]);
            } else if i < was.len() {
                assert(before.types@[i]@ != ty@);
            } else {
                assert(before.types@[j]@ != ty@);
            }
        }
    }
    put_entry(&mut ids.entries, (parent, slot as u64), id);
    ids.next = id + 1;
    ids.meaning = Ghost(meaning.push(wanted));
    proof {
        let m = ids.meaning@;
        assert(forall|i: int| 0 <= i < meaning.len() ==> m[i] == meaning[i]);
        assert(m[id as int] == wanted);
        assert forall|i: int, j: int| 0 <= i < m.len() && 0 <= j < m.len() && i != j implies m[i]
            != m[j] by {
            if i == id {
                assert(meaning.contains(meaning[j]));
            } else if j == id {
                assert(meaning.contains(meaning[i]));
            }
        }
        assert forall|k: (u64, u64)| #[trigger] ids.entries@.contains_key(k) implies k.0 < ids.next
            && k.1 < ids.types.len() && ids.entries@[k] < ids.next && m[ids.entries@[k] as int]
            == m[k.0 as int].push(ids.types.deep_view()[k.1 as int]) by {
            if k != (parent, slot as u64) {
                assert(before.entries@.contains_key(k));
                assert(before.types.deep_view()[k.1 as int] == ids.types.deep_view()[k.1 as int]);
            }
        }
        assert forall|x: u64| 1 <= x < ids.next implies #[trigger] ids.given(x) by {
            if x == id {
                assert(ids.entries@.contains_key((parent, slot as u64)));
            } else {
                assert(before.given(x));
                let k = choose|k: (u64, u64)| #[trigger]
                    before.entries@.contains_key(k) && before.entries@[k] == x;
                assert(k != (parent, slot as u64));
                assert(ids.entries@.contains_key(k));
            }
        }
        assert(before.types.len() < before.next);
    }
    id
}

/// The context's `k` innermost types, or all of them where it has fewer.
pub open spec fn innermost(ctx: Seq<Term>, k: nat) -> Seq<Term> {
    if k >= ctx.len() {
        ctx
    } else {
        ctx.skip(ctx.len() - k)
    }
}

/// Whether a bit of a word is set.
pub open spec fn has_bit(word: u64, i: u64) -> bool {
    word & (1u64 << i) != 0
}

/// The types of the variables below `n` whose bits are set, outermost first.
pub open spec fn chosen_types(ctx: Seq<Term>, used: u64, n: nat) -> Seq<Term>
    decreases n,
{
    if n == 0 {
        Seq::empty()
    } else if has_bit(used, (n - 1) as u64) {
        seq![ctx[ctx.len() - n]] + chosen_types(ctx, used, (n - 1) as nat)
    } else {
        chosen_types(ctx, used, (n - 1) as nat)
    }
}

/// Whether every variable below 64 whose bit is set is in scope.
pub open spec fn bits_in_scope(ctx: Seq<Term>, used: u64) -> bool {
    forall|i: u64| i < 64 && #[trigger] has_bit(used, i) ==> i < ctx.len()
}

/// The types that decide how a term with the given variables is read.
pub open spec fn key_types(ctx: Seq<Term>, used: u64, reach: nat) -> Seq<Term> {
    if reach == 0 {
        Seq::empty()
    } else if used == 0 || used == u64::MAX || !bits_in_scope(ctx, used) {
        innermost(ctx, reach)
    } else {
        chosen_types(ctx, used, 64)
    }
}

/// What [`used_bvars`] returns: one bit for each variable that occurs, or all
/// bits where some variable beyond the word does.
pub open spec fn is_used_mask(t: Term, mask: u64) -> bool {
    if loose(t) > 64 {
        mask == u64::MAX
    } else {
        forall|i: u64| i < 64 ==> (#[trigger] has_bit(mask, i) <==> uses_bvar(t, i as nat))
    }
}

/// The variables that occur in a term, one bit each; all bits where some
/// variable beyond the word occurs.
pub fn used_bvars(e: &Expr) -> (r: u64)
    ensures
        is_used_mask(e@, r),
        r == 0 <==> loose(e@) == 0,
{
    let reach: u64 = loose_bvar_range(e);
    if reach > 64 {
        return u64::MAX;
    }
    let mut mask: u64 = 0;
    let mut i: u64 = 0;
    assert forall|j: u64| j < 64 implies !#[trigger] has_bit(0, j) by {
        assert(0u64 & (1u64 << j) == 0) by (bit_vector);
    }
    while i < reach
        invariant
            i <= reach <= 64,
            reach as nat == loose(e@),
            forall|j: u64| j < 64 ==> (#[trigger] has_bit(mask, j) <==> j < i && uses_bvar(
                e@,
                j as nat,
            )),
        decreases reach - i,
    {
        let ghost before = mask;
        if occurs_bvar(e, i) {
            mask = mask | (1u64 << i);
            assert forall|j: u64| j < 64 implies (#[trigger] has_bit(mask, j) <==> has_bit(
                before,
                j,
            ) || j == i) by {
                assert((before | (1u64 << i)) & (1u64 << j) != 0 <==> (before & (1u64 << j) != 0
                    || j == i)) by (bit_vector)
                    requires
                        i < 64,
                        j < 64,
                ;
            }
        }
        i = i + 1;
    }
    proof {
        assert forall|j: u64| j < 64 implies (#[trigger] has_bit(mask, j) <==> uses_bvar(
            e@,
            j as nat,
        )) by {
            if j >= reach {
                law_uses_below_loose(e@, j as nat);
            }
        }
        if reach > 0 {
            law_loose_is_used(e@);
            let top = (reach - 1) as u64;
            assert(has_bit(mask, top));
            assert(mask & (1u64 << top) != 0 ==> mask != 0) by (bit_vector);
        } else if mask != 0 {
            lemma_nonzero_bit(mask);
        }
    }
    mask
}

proof fn lemma_nonzero_bit(mask: u64)
    requires
        forall|j: u64| j < 64 ==> !#[trigger] has_bit(mask, j),
    ensures
        mask == 0,
{
    lemma_low_bits(mask, 64);
    assert(mask >> 63 >> 1 == 0) by (bit_vector);
    assert(mask == 0);
}

proof fn lemma_low_bits(mask: u64, n: u64)
    requires
        n <= 64,
        forall|j: u64| j < 64 ==> !#[trigger] has_bit(mask, j),
    ensures
        n < 64 ==> mask & ((1u64 << n) - 1) as u64 == 0,
        n == 64 ==> mask == 0,
    decreases n,
{
    if n == 0 {
        assert(mask & ((1u64 << 0) - 1) as u64 == 0) by (bit_vector);
    } else {
        let m = (n - 1) as u64;
        lemma_low_bits(mask, m);
        assert(!has_bit(mask, m));
        if n < 64 {
            assert(mask & ((1u64 << n) - 1) as u64 == 0) by (bit_vector)
                requires
                    0 < n < 64,
                    m == n - 1,
                    mask & ((1u64 << m) - 1) as u64 == 0,
                    mask & (1u64 << m) == 0,
            ;
        } else {
            assert(mask == 0) by (bit_vector)
                requires
                    mask & ((1u64 << 63) - 1) as u64 == 0,
                    mask & (1u64 << 63) == 0,
            ;
        }
    }
}

impl Ctx {
    /// The identity of the whole context.
    pub fn id(&self, ids: &mut CtxIds) -> (r: u64)
        requires
            old(ids).wf(),
            old(ids).count() + self@.len() <= u64::MAX,
        ensures
            final(ids).wf(),
            final(ids).extends(old(ids)),
            final(ids).known(r),
            final(ids).types_of(r) == self@,
            final(ids).count() <= old(ids).count() + self@.len(),
    {
        self.suffix_key(ids, self.len())
    }

    /// The identity of the `k` innermost types.
    pub fn suffix_key(&self, ids: &mut CtxIds, k: usize) -> (r: u64)
        requires
            old(ids).wf(),
            old(ids).count() + self@.len() <= u64::MAX,
        ensures
            final(ids).wf(),
            final(ids).extends(old(ids)),
            final(ids).known(r),
            final(ids).types_of(r) == innermost(self@, k as nat),
            final(ids).count() <= old(ids).count() + self@.len(),
    {
        let n: usize = self.len();
        let start: usize = if k >= n {
            0
        } else {
            n - k
        };
        let ghost before = *ids;
        proof {
            law_ids_identify(*ids, 0, 0);
        }
        let mut id: u64 = 0;
        let mut i: usize = start;
        assert(self@.subrange(start as int, i as int) =~= Seq::<Term>::empty());
        while i < n
            invariant
                start <= i <= n,
                n as nat == self@.len(),
                ids.wf(),
                ids.extends(&before),
                ids.known(id),
                ids.types_of(id) == self@.subrange(start as int, i as int),
                ids.count() + (n - i) <= before.count() + n <= u64::MAX,
            decreases n - i,
        {
            let ghost was = *ids;
            id = intern_ctx_id(ids, id, self.at(i));
            i = i + 1;
            assert(self@.subrange(start as int, i as int) =~= self@.subrange(
                start as int,
                i - 1,
            ).push(self@[i - 1]));
        }
        assert(self@.subrange(start as int, n as int) =~= innermost(self@, k as nat));
        id
    }

    /// The identity of the types that decide how a term with the given variables
    /// is read.
    pub fn used_bvar_key(&self, ids: &mut CtxIds, used: u64, reach: u64) -> (r: u64)
        requires
            old(ids).wf(),
            old(ids).count() + self@.len() + 64 <= u64::MAX,
        ensures
            final(ids).wf(),
            final(ids).extends(old(ids)),
            final(ids).known(r),
            final(ids).types_of(r) == key_types(self@, used, reach as nat),
            final(ids).count() <= old(ids).count() + self@.len() + 64,
    {
        proof {
            law_ids_identify(*ids, 0, 0);
        }
        if reach == 0 {
            return 0;
        }
        let n: usize = self.len();
        let wide: usize = if reach <= n as u64 {
            reach as usize
        } else {
            n
        };
        assert(innermost(self@, wide as nat) == innermost(self@, reach as nat));
        if used == 0 || used == u64::MAX {
            return self.suffix_key(ids, wide);
        }
        if !self.bits_bound(used) {
            return self.suffix_key(ids, wide);
        }
        let ghost before = *ids;
        let mut id: u64 = 0;
        let mut i: u64 = 64;
        assert(Seq::<Term>::empty() + chosen_types(self@, used, 64) =~= chosen_types(
            self@,
            used,
            64,
        ));
        while i > 0
            invariant
                i <= 64,
                n as nat == self@.len(),
                bits_in_scope(self@, used),
                ids.wf(),
                ids.extends(&before),
                ids.known(id),
                ids.types_of(id) + chosen_types(self@, used, i as nat) == chosen_types(
                    self@,
                    used,
                    64,
                ),
                ids.count() + i <= before.count() + 64 <= u64::MAX,
            decreases i,
        {
            let j: u64 = i - 1;
            let ghost was = ids.types_of(id);
            if used & (1u64 << j) != 0 {
                assert(has_bit(used, j));
                let ghost t = self@[self@.len() - i];
                id = intern_ctx_id(ids, id, self.at(n - 1 - j as usize));
                assert(was.push(t) + chosen_types(self@, used, j as nat) =~= was + (seq![t]
                    + chosen_types(self@, used, j as nat)));
            }
            i = j;
        }
        assert(ids.types_of(id) + chosen_types(self@, used, 0) =~= ids.types_of(id));
        id
    }

    fn bits_bound(&self, used: u64) -> (r: bool)
        ensures
            r == bits_in_scope(self@, used),
    {
        let mut i: u64 = 0;
        while i < 64
            invariant
                i <= 64,
                forall|j: u64| j < i && #[trigger] has_bit(used, j) ==> j < self@.len(),
            decreases 64 - i,
        {
            if used & (1u64 << i) != 0 && i >= self.len() as u64 {
                assert(has_bit(used, i));
                return false;
            }
            i = i + 1;
        }
        true
    }

    /// The identity of what decides how a term is read here.
    pub fn term_ctx_key(&self, ids: &mut CtxIds, e: &Expr) -> (r: u64)
        requires
            old(ids).wf(),
            old(ids).count() + self@.len() + 64 <= u64::MAX,
        ensures
            final(ids).wf(),
            final(ids).extends(old(ids)),
            final(ids).known(r),
            final(ids).types_of(r) == term_key(self@, e@),
            final(ids).count() <= old(ids).count() + self@.len() + 64,
    {
        let used: u64 = used_bvars(e);
        proof {
            lemma_term_key(self@, e@, used);
        }
        self.used_bvar_key(ids, used, loose_bvar_range(e))
    }

    /// The identity of what decides how two terms are read here.
    pub fn pair_ctx_key(&self, ids: &mut CtxIds, a: &Expr, b: &Expr) -> (r: u64)
        requires
            old(ids).wf(),
            old(ids).count() + self@.len() + 64 <= u64::MAX,
        ensures
            final(ids).wf(),
            final(ids).extends(old(ids)),
            final(ids).known(r),
            final(ids).types_of(r) == pair_key(self@, a@, b@),
            final(ids).count() <= old(ids).count() + self@.len() + 64,
    {
        let ua: u64 = used_bvars(a);
        let ub: u64 = used_bvars(b);
        let used: u64 = if ua == u64::MAX || ub == u64::MAX {
            u64::MAX
        } else {
            ua | ub
        };
        let ra: u64 = loose_bvar_range(a);
        let rb: u64 = loose_bvar_range(b);
        let reach: u64 = if ra >= rb {
            ra
        } else {
            rb
        };
        proof {
            lemma_pair_key(self@, a@, b@, ua, ub);
        }
        self.used_bvar_key(ids, used, reach)
    }
}

/// The variables of two terms together.
pub open spec fn pair_mask(ma: u64, mb: u64) -> u64 {
    if ma == u64::MAX || mb == u64::MAX {
        u64::MAX
    } else {
        ma | mb
    }
}

/// The types of those of the `n` innermost variables that are used, outermost
/// first.
pub open spec fn used_types(ctx: Seq<Term>, used: spec_fn(nat) -> bool, n: nat) -> Seq<Term>
    decreases n,
{
    if n == 0 {
        Seq::empty()
    } else if used((n - 1) as nat) {
        seq![ctx[ctx.len() - n]] + used_types(ctx, used, (n - 1) as nat)
    } else {
        used_types(ctx, used, (n - 1) as nat)
    }
}

/// The types that decide how something with the given variables, all of them
/// below `reach`, is read: those of the variables it uses, or those of all the
/// variables below `reach` where they are many or some of them are not in scope.
pub open spec fn key_by(ctx: Seq<Term>, used: spec_fn(nat) -> bool, reach: nat) -> Seq<Term> {
    if reach > 64 || reach > ctx.len() {
        innermost(ctx, reach)
    } else {
        used_types(ctx, used, reach)
    }
}

/// The types that decide how a term is read.
pub open spec fn term_key(ctx: Seq<Term>, t: Term) -> Seq<Term> {
    key_by(ctx, |i: nat| uses_bvar(t, i), loose(t))
}

/// The types that decide how two terms are read.
pub open spec fn pair_key(ctx: Seq<Term>, a: Term, b: Term) -> Seq<Term> {
    key_by(
        ctx,
        |i: nat| uses_bvar(a, i) || uses_bvar(b, i),
        crate::expr::max_nat(loose(a), loose(b)),
    )
}

proof fn lemma_chosen_used(
    ctx: Seq<Term>,
    used: spec_fn(nat) -> bool,
    mask: u64,
    reach: nat,
    n: nat,
)
    requires
        n <= 64,
        forall|i: u64| i < 64 ==> (#[trigger] has_bit(mask, i) <==> used(i as nat)),
        forall|i: nat| #[trigger] used(i) ==> i < reach,
    ensures
        n <= reach ==> chosen_types(ctx, mask, n) == used_types(ctx, used, n),
        n >= reach ==> chosen_types(ctx, mask, n) == used_types(ctx, used, reach),
    decreases n,
{
    if n > 0 {
        lemma_chosen_used(ctx, used, mask, reach, (n - 1) as nat);
        let top = (n - 1) as u64;
        assert(has_bit(mask, top) <==> used(top as nat));
    }
}

proof fn lemma_all_used(ctx: Seq<Term>, used: spec_fn(nat) -> bool, n: nat)
    requires
        n <= ctx.len(),
        forall|i: nat| i < n ==> #[trigger] used(i),
    ensures
        used_types(ctx, used, n) == innermost(ctx, n),
    decreases n,
{
    if n > 0 {
        lemma_all_used(ctx, used, (n - 1) as nat);
        assert(used((n - 1) as nat));
        assert(seq![ctx[ctx.len() - n]] + innermost(ctx, (n - 1) as nat) =~= innermost(ctx, n));
    } else {
        assert(innermost(ctx, 0) =~= Seq::<Term>::empty());
    }
}

proof fn lemma_key_by(ctx: Seq<Term>, used: spec_fn(nat) -> bool, mask: u64, reach: nat)
    requires
        reach <= 64,
        forall|i: u64| i < 64 ==> (#[trigger] has_bit(mask, i) <==> used(i as nat)),
        forall|i: nat| #[trigger] used(i) ==> i < reach,
        reach > 0 ==> used((reach - 1) as nat),
    ensures
        key_types(ctx, mask, reach) == key_by(ctx, used, reach),
{
    if reach > 0 {
        let top = (reach - 1) as u64;
        assert(has_bit(mask, top));
        assert(mask & (1u64 << top) != 0 ==> mask != 0) by (bit_vector);
        if reach <= ctx.len() {
            assert forall|i: u64| i < 64 && #[trigger] has_bit(mask, i) implies i < ctx.len() by {
                assert(used(i as nat));
            }
        }
        if mask == u64::MAX {
            assert forall|i: nat| i < 64 implies #[trigger] used(i) by {
                let j = i as u64;
                assert(0xffff_ffff_ffff_ffffu64 & (1u64 << j) != 0) by (bit_vector)
                    requires
                        j < 64,
                ;
                assert(has_bit(mask, j));
            }
            assert(used(63));
            if reach <= ctx.len() {
                lemma_all_used(ctx, used, reach);
            }
        }
        lemma_chosen_used(ctx, used, mask, reach, 64);
    }
}

proof fn lemma_term_key(ctx: Seq<Term>, t: Term, mask: u64)
    requires
        is_used_mask(t, mask),
    ensures
        key_types(ctx, mask, loose(t)) == term_key(ctx, t),
{
    if loose(t) <= 64 {
        let used = |i: nat| uses_bvar(t, i);
        assert forall|i: nat| #[trigger] used(i) implies i < loose(t) by {
            if i >= loose(t) {
                law_uses_below_loose(t, i);
            }
        }
        if loose(t) > 0 {
            law_loose_is_used(t);
        }
        lemma_key_by(ctx, used, mask, loose(t));
    }
}

proof fn lemma_pair_key(ctx: Seq<Term>, a: Term, b: Term, ma: u64, mb: u64)
    requires
        is_used_mask(a, ma),
        is_used_mask(b, mb),
    ensures
        key_types(ctx, pair_mask(ma, mb), crate::expr::max_nat(loose(a), loose(b))) == pair_key(
            ctx,
            a,
            b,
        ),
{
    let reach = crate::expr::max_nat(loose(a), loose(b));
    let mask = pair_mask(ma, mb);
    if reach <= 64 {
        let used = |i: nat| uses_bvar(a, i) || uses_bvar(b, i);
        assert forall|i: nat| #[trigger] used(i) implies i < reach by {
            if i >= reach {
                law_uses_below_loose(a, i);
                law_uses_below_loose(b, i);
            }
        }
        if loose(a) > 0 {
            law_loose_is_used(a);
        }
        if loose(b) > 0 {
            law_loose_is_used(b);
        }
        assert forall|i: u64| i < 64 implies (#[trigger] has_bit(mask, i) <==> used(i as nat)) by {
            assert(has_bit(ma, i) <==> uses_bvar(a, i as nat));
            assert(has_bit(mb, i) <==> uses_bvar(b, i as nat));
            assert(((ma | mb) & (1u64 << i) != 0) <==> (ma & (1u64 << i) != 0 || mb & (1u64 << i)
                != 0)) by (bit_vector);
            assert(0xffff_ffff_ffff_ffffu64 & (1u64 << i) != 0) by (bit_vector)
                requires
                    i < 64,
            ;
        }
        lemma_key_by(ctx, used, mask, reach);
    }
}

/// Contexts that agree on the variables that a term uses give it the same key:
/// variables that it does not mention do not matter. The term mentions no more
/// variables than a word has bits, and all of them are in scope.
pub proof fn law_key_ignores_unused(a: Seq<Term>, b: Seq<Term>, t: Term)
    requires
        loose(t) <= 64,
        loose(t) <= a.len(),
        loose(t) <= b.len(),
        forall|i: nat|
            #![trigger uses_bvar(t, i)]
            uses_bvar(t, i) && i < loose(t) ==> a[a.len() - 1 - i] == b[b.len() - 1 - i],
    ensures
        term_key(a, t) == term_key(b, t),
{
    lemma_used_agree(a, b, t, loose(t));
}

proof fn lemma_used_agree(a: Seq<Term>, b: Seq<Term>, t: Term, n: nat)
    requires
        n <= loose(t),
        loose(t) <= a.len(),
        loose(t) <= b.len(),
        forall|i: nat|
            #![trigger uses_bvar(t, i)]
            uses_bvar(t, i) && i < loose(t) ==> a[a.len() - 1 - i] == b[b.len() - 1 - i],
    ensures
        used_types(a, |i: nat| uses_bvar(t, i), n) == used_types(b, |i: nat| uses_bvar(t, i), n),
    decreases n,
{
    if n > 0 {
        lemma_used_agree(a, b, t, (n - 1) as nat);
        if uses_bvar(t, (n - 1) as nat) {
            assert(a[a.len() - n] == b[b.len() - n]);
        }
    }
}

/// The key of a term is the identity of a context of its own: two keys out of one
/// table are the same exactly where the types that decide are. A closed term has
/// the key of the empty context.
pub proof fn law_keys_identify(
    ids: CtxIds,
    a: Seq<Term>,
    t: Term,
    ka: u64,
    b: Seq<Term>,
    u: Term,
    kb: u64,
)
    requires
        ids.wf(),
        ids.known(ka),
        ids.known(kb),
        ids.types_of(ka) == term_key(a, t),
        ids.types_of(kb) == term_key(b, u),
    ensures
        ka == kb <==> term_key(a, t) == term_key(b, u),
        loose(t) == 0 ==> ka == 0,
{
    law_ids_identify(ids, ka, kb);
    law_ids_identify(ids, ka, 0);
    law_ids_identify(ids, 0, 0);
}

/// The key of the `k` innermost types of a context is the identity of a context
/// made of just these, in one table.
pub proof fn law_suffix_key_is_an_id(ids: CtxIds, ctx: Seq<Term>, k: nat, key: u64, id: u64)
    requires
        ids.wf(),
        ids.known(key),
        ids.known(id),
        ids.types_of(key) == innermost(ctx, k),
        ids.types_of(id) == innermost(ctx, k),
    ensures
        key == id,
        k > 0 && ctx.len() > 0 ==> key != 0,
{
    law_ids_identify(ids, key, id);
    law_ids_identify(ids, 0, key);
    assert(k > 0 && ctx.len() > 0 ==> innermost(ctx, k).len() > 0);
}

/// The identities of extended contexts are the same exactly where they extend the
/// same context by the same type, and none is that of the empty context.
pub proof fn law_interned_steps(ids: CtxIds, p1: u64, t1: Term, r1: u64, p2: u64, t2: Term, r2: u64)
    requires
        ids.wf(),
        ids.known(p1),
        ids.known(r1),
        ids.known(p2),
        ids.known(r2),
        ids.types_of(r1) == ids.types_of(p1).push(t1),
        ids.types_of(r2) == ids.types_of(p2).push(t2),
    ensures
        r1 == r2 <==> p1 == p2 && t1 == t2,
        r2 != 0,
{
    law_ids_identify(ids, r1, r2);
    law_ids_identify(ids, p1, p2);
    law_ids_identify(ids, 0, r2);
    let a = ids.types_of(r1);
    let b = ids.types_of(r2);
    assert(a.drop_last() =~= ids.types_of(p1));
    assert(b.drop_last() =~= ids.types_of(p2));
    assert(a.last() == t1 && b.last() == t2);
}

} // verus!
