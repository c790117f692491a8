//! Well-formedness of groups of inductive types.

use crate::ctx::Ctx;
use crate::env::{find, rec_of, ConstantInfo, Info};
use crate::errors::{decline, other, reject, res, Fault, R};
use crate::expr::{
    bvar, exprs_from, rec_expr_eq, spine_args, spine_head, unfold_apps, Expr, ExprData, Term,
};
use crate::iota::{occurs_any, occurs_any_spec, pi_target};
use crate::judge::sem_at;
use crate::kernel::{start_mode, Checker, Mode, Res, Sem, NEST_LIMIT, K, STEP_LIMIT};
use crate::level::{
    is_def_eq, is_not_zero, leq, levels_def_eq, param, univ_eq, univ_le, univ_positive, univs_eq,
    zero, Level, LevelData, Univ,
};
use crate::lookup::name_of;
use crate::positive::{are_params, arg_positive, occurs_in_any, Bound, PositiveFor};
use crate::reduce::{ensure_pi_spec, ensure_sort_spec, open_spec};
use crate::text::join;
use vstd::prelude::*;

verus! {

/// Whether a list names something twice.
pub open spec fn repeats(v: Seq<u32>) -> bool {
    exists|i: int, j: int| 0 <= i < j < v.len() && #[trigger] v[i] == #[trigger] v[j]
}

/// Whether a list names something twice.
pub fn has_repeats(v: &Vec<u32>) -> (r: bool)
    ensures
        r == repeats(v@),
{
    let mut i: usize = 0;
    while i < v.len()
        invariant
            i <= v.len(),
            forall|a: int, b: int| 0 <= a < b < i ==> #[trigger] v@[a] != #[trigger] v@[b],
        decreases v.len() - i,
    {
        let mut j: usize = 0;
        while j < i
            invariant
                j <= i < v.len(),
                forall|a: int| 0 <= a < j ==> #[trigger] v@[a] != v@[i as int],
            decreases i - j,
        {
            if v[j] == v[i] {
                assert(v@[j as int] == v@[i as int]);
                return true;
            }
            j = j + 1;
        }
        i = i + 1;
    }
    false
}

/// Whether two lists are the same.
pub fn same_ids(a: &Vec<u32>, b: &Vec<u32>) -> (r: bool)
    ensures
        r == (a@ == b@),
{
    if a.len() != b.len() {
        return false;
    }
    let mut i: usize = 0;
    while i < a.len()
        invariant
            i <= a.len() == b.len(),
            forall|j: int| 0 <= j < i ==> a@[j] == b@[j],
        decreases a.len() - i,
    {
        if a[i] != b[i] {
            return false;
        }
        i = i + 1;
    }
    assert(a@ =~= b@);
    true
}

/// Whether a level is built of zero and successors.
pub open spec fn closed_level(l: Univ) -> bool
    decreases l,
{
    match l {
        Univ::Zero => true,
        Univ::Succ(a) => closed_level(*a),
        _ => false,
    }
}

/// The level under all outermost successors.
pub open spec fn under_succs(l: Univ) -> Univ
    decreases l,
{
    match l {
        Univ::Succ(a) => under_succs(*a),
        _ => l,
    }
}

/// Whether a level is one or more successors of another.
pub open spec fn successor_of(hi: Univ, lo: Univ) -> bool {
    hi is Succ && univ_eq(under_succs(hi), lo)
}

/// Whether a field of the given level is too big for a type of the given level.
/// Nothing is too big for a proposition.
pub open spec fn too_big(field: Univ, sort: Univ) -> bool {
    ((closed_level(field) && closed_level(sort) && !univ_le(field, sort)) || successor_of(
        field,
        sort,
    )) && !univ_eq(sort, Univ::Zero)
}

/// Whether a level is built of zero and successors.
pub fn is_closed_numeral(l: &Level) -> (r: bool)
    ensures
        r == closed_level(l@),
    decreases l,
{
    match l.data() {
        LevelData::Zero => true,
        LevelData::Succ(a) => is_closed_numeral(a),
        _ => false,
    }
}

fn strip_succs(l: &Level) -> (r: &Level)
    ensures
        r@ == under_succs(l@),
    decreases l,
{
    match l.data() {
        LevelData::Succ(a) => strip_succs(a),
        _ => l,
    }
}

/// Whether a level is one or more successors of another.
pub fn is_strict_succ_of(hi: &Level, lo: &Level) -> (r: bool)
    ensures
        r == successor_of(hi@, lo@),
{
    match hi.data() {
        LevelData::Succ(_) => is_def_eq(strip_succs(hi), lo),
        _ => false,
    }
}

fn is_too_big(field: &Level, sort: &Level) -> (r: bool)
    ensures
        r == too_big(field@, sort@),
{
    ((is_closed_numeral(field) && is_closed_numeral(sort) && !leq(field, sort))
        || is_strict_succ_of(field, sort)) && !is_def_eq(sort, &zero())
}

/// A field that is not too big for a type of a closed level lies below it.
pub proof fn law_field_fits(field: Univ, sort: Univ)
    requires
        closed_level(field),
        closed_level(sort),
        !too_big(field, sort),
    ensures
        univ_le(field, sort) || univ_eq(sort, Univ::Zero),
{
}

/// The scope and the type behind the parameters, each of which must be the one
/// that the group has.
pub open spec fn open_params(
    k: K,
    s: Sem,
    m: Mode,
    ctx: Seq<Term>,
    t: Term,
    params: Seq<Term>,
    i: nat,
    n: nat,
    msg: Seq<char>,
) -> Res<(Seq<Term>, Term)>
    decreases n - i,
{
    if i >= n {
        Ok((ctx, t))
    } else {
        match ensure_pi_spec(k, s, m, ctx, t) {
            Err(f) => Err(f),
            Ok((_, dom, body)) => match (s.defeq)(m, ctx, dom, params[i as int]) {
                Err(f) => Err(f),
                Ok(false) => Err(Fault::Reject(msg)),
                Ok(true) => open_params(k, s, m, ctx.push(dom), body, params, i + 1, n, msg),
            },
        }
    }
}

/// What the types of a group share: the parameters, and the universe parameters.
pub struct Shared {
    pub num_params: u32,
    pub params: Seq<Term>,
    pub level_params: Seq<u32>,
    pub all: Seq<u32>,
}

/// The number of indices and the level of a type of a group.
#[verifier::opaque]
pub open spec fn type_shape(k: K, s: Sem, m: Mode, sh: Shared, t: u32) -> Res<Option<(u32, Univ)>> {
    match find(k.env, t) {
        Some(Info::InductiveType { num_params, num_indices, typ, level_params, .. }) => if num_params
            != sh.num_params {
            Err(Fault::Reject("inconsistent numParams across mutual inductive group"@))
        } else if level_params != sh.level_params {
            Err(
                Fault::Reject(
                    "inconsistent universe parameters across mutual inductive group"@,
                ),
            )
        } else {
            match open_params(
                k,
                s,
                m,
                Seq::empty(),
                typ,
                sh.params,
                0,
                num_params as nat,
                "inductive type's parameter telescope is inconsistent"@,
            ) {
                Err(f) => Err(f),
                Ok((c1, t1)) => match open_spec(k, s, m, c1, t1, num_indices as nat) {
                    Err(f) => Err(f),
                    Ok((c2, t2)) => match ensure_sort_spec(k, s, m, c2, t2) {
                        Err(f) => Err(f),
                        Ok(l) => Ok(Some((num_indices, l))),
                    },
                },
            }
        },
        _ => Ok(None),
    }
}

/// The shapes of the types from position `i` on, behind those collected.
pub open spec fn type_shapes(
    k: K,
    s: Sem,
    m: Mode,
    sh: Shared,
    i: nat,
    acc: Seq<Option<(u32, Univ)>>,
) -> Res<Seq<Option<(u32, Univ)>>>
    decreases sh.all.len() - i,
{
    if i >= sh.all.len() {
        Ok(acc)
    } else {
        match type_shape(k, s, m, sh, sh.all[i as int]) {
            Err(f) => Err(f),
            Ok(x) => type_shapes(k, s, m, sh, i + 1, acc.push(x)),
        }
    }
}

/// Whether a field fits the type: its sort, where it shows one, is not too big.
pub open spec fn field_fits(k: K, s: Sem, m: Mode, ctx: Seq<Term>, dom: Term, sort: Univ) -> Res<
    (),
> {
    match (s.infer)(m, ctx, dom) {
        Err(f) => Err(f),
        Ok(ds) => match ensure_sort_spec(k, s, m, ctx, ds) {
            Ok(l) => if too_big(l, sort) {
                Err(
                    Fault::Reject(
                        "constructor field universe is too big for the inductive type"@,
                    ),
                )
            } else {
                Ok(())
            },
            Err(_) => Ok(()),
        },
    }
}

/// The scope and the conclusion behind a constructor's fields, each of which must
/// be positive and fit the type.
pub open spec fn open_fields(
    k: K,
    s: Sem,
    m: Mode,
    ctx: Seq<Term>,
    t: Term,
    sh: Shared,
    sort: Univ,
) -> Res<(Seq<Term>, Term)>
    decreases t,
{
    match t {
        Term::Pi(_, dom, body) => match arg_positive(
            k,
            s,
            m,
            ctx,
            *dom,
            PositiveFor { bound: sh.all, num_params: sh.num_params },
            Seq::empty(),
            NEST_LIMIT as nat,
        ) {
            Err(f) => Err(f),
            Ok(()) => match field_fits(k, s, m, ctx, *dom, sort) {
                Err(f) => Err(f),
                Ok(()) => open_fields(k, s, m, ctx.push(*dom), *body, sh, sort),
            },
        },
        _ => Ok((ctx, t)),
    }
}

/// The universe parameters as levels.
pub open spec fn param_levels(ps: Seq<u32>) -> Seq<Univ> {
    Seq::new(ps.len(), |i: int| Univ::Param(ps[i]))
}

/// Whether the conclusion of a constructor is the type being defined, at its own
/// parameters, with indices that do not mention the group.
#[verifier::opaque]
pub open spec fn conclusion_ok(
    s: Sem,
    m: Mode,
    ctx: Seq<Term>,
    e: Term,
    t: u32,
    num_indices: u32,
    sh: Shared,
) -> Res<()> {
    let args = spine_args(e);
    match spine_head(e) {
        Term::Const(c, us) => if c != t {
            Err(Fault::Reject("constructor conclusion is not the inductive type being defined"@))
        } else if !univs_eq(us, param_levels(sh.level_params)) {
            Err(
                Fault::Reject(
                    "constructor conclusion applies inductive type at wrong universes"@,
                ),
            )
        } else if args.len() != sh.num_params + num_indices {
            Err(Fault::Reject("constructor conclusion has wrong number of arguments"@))
        } else {
            match are_params(s, m, ctx, args, 0, sh.num_params as nat) {
                Err(f) => Err(f),
                Ok(false) => Err(
                    Fault::Reject(
                        "constructor does not apply the inductive type to its own shared parameters"@,
                    ),
                ),
                Ok(true) => if occurs_in_any(args.skip(sh.num_params as int), sh.all) {
                    Err(
                        Fault::Reject(
                            "constructor index expression refers to the inductive type being defined"@,
                        ),
                    )
                } else {
                    Ok(())
                },
            }
        },
        _ => Err(
            Fault::Reject("constructor conclusion is not the inductive type being defined"@),
        ),
    }
}

/// Whether a constructor of a type of the group is well formed.
#[verifier::opaque]
pub open spec fn ctor_ok(
    k: K,
    s: Sem,
    m: Mode,
    sh: Shared,
    t: u32,
    num_indices: u32,
    sort: Univ,
    c: u32,
) -> Res<()> {
    match find(k.env, c) {
        Some(Info::Constructor { level_params, typ, num_params, .. }) => if level_params
            != sh.level_params {
            Err(Fault::Reject("constructor universe parameters do not match inductive type"@))
        } else if num_params != sh.num_params {
            Err(Fault::Reject("constructor numParams does not match inductive type"@))
        } else {
            match open_params(
                k,
                s,
                m,
                Seq::empty(),
                typ,
                sh.params,
                0,
                sh.num_params as nat,
                "constructor parameter telescope does not match inductive type"@,
            ) {
                Err(f) => Err(f),
                Ok((c1, t1)) => match open_fields(k, s, m, c1, t1, sh, sort) {
                    Err(f) => Err(f),
                    Ok((c2, e)) => conclusion_ok(s, m, c2, e, t, num_indices, sh),
                },
            }
        },
        _ => Ok(()),
    }
}

/// Whether the constructors from position `i` on are well formed.
pub open spec fn ctors_ok(
    k: K,
    s: Sem,
    m: Mode,
    sh: Shared,
    t: u32,
    num_indices: u32,
    sort: Univ,
    ctors: Seq<u32>,
    i: nat,
) -> Res<()>
    decreases ctors.len() - i,
{
    if i >= ctors.len() {
        Ok(())
    } else {
        match ctor_ok(k, s, m, sh, t, num_indices, sort, ctors[i as int]) {
            Err(f) => Err(f),
            Ok(()) => ctors_ok(k, s, m, sh, t, num_indices, sort, ctors, i + 1),
        }
    }
}

/// Whether the constructors of the types from position `i` on are well formed.
pub open spec fn all_ctors_ok(
    k: K,
    s: Sem,
    m: Mode,
    sh: Shared,
    shapes: Seq<Option<(u32, Univ)>>,
    i: nat,
) -> Res<()>
    decreases sh.all.len() - i,
{
    if i >= sh.all.len() {
        Ok(())
    } else {
        match (find(k.env, sh.all[i as int]), shapes[i as int]) {
            (Some(Info::InductiveType { ctors, .. }), Some((ni, sort))) => match ctors_ok(
                k,
                s,
                m,
                sh,
                sh.all[i as int],
                ni,
                sort,
                ctors,
                0,
            ) {
                Err(f) => Err(f),
                Ok(()) => all_ctors_ok(k, s, m, sh, shapes, i + 1),
            },
            _ => all_ctors_ok(k, s, m, sh, shapes, i + 1),
        }
    }
}

/// The positions of the fields that hold data, behind those collected, with the
/// number of binders and the conclusion of the constructor's type.
pub open spec fn data_fields(
    k: K,
    s: Sem,
    m: Mode,
    ctx: Seq<Term>,
    t: Term,
    pos: nat,
    np: u32,
    acc: Seq<u32>,
    n: nat,
) -> Res<(Seq<u32>, nat, Term)>
    decreases n,
{
    match t {
        Term::Pi(_, dom, body) => if n == 0 {
            Err(Fault::Decline("WHNF step limit"@))
        } else {
            let acc2 = if pos >= np && holds_data(k, s, m, ctx, *dom) {
                acc.push(pos as u32)
            } else {
                acc
            };
            data_fields(k, s, m, ctx.push(*dom), *body, pos + 1, np, acc2, (n - 1) as nat)
        },
        _ => Ok((acc, pos, t)),
    }
}

/// Whether a field may be other than a proof: its sort is not that of
/// propositions for every choice of the universe parameters.
pub open spec fn holds_data(k: K, s: Sem, m: Mode, ctx: Seq<Term>, dom: Term) -> bool {
    match (s.infer)(m, ctx, dom) {
        Ok(ds) => match ensure_sort_spec(k, s, m, ctx, ds) {
            Ok(l) => !univ_eq(l, Univ::Zero),
            Err(_) => false,
        },
        Err(_) => false,
    }
}

/// Whether the field at a position is one of the arguments.
pub open spec fn field_shown(args: Seq<Term>, pos: nat, p: u32) -> bool {
    args.contains(Term::BVar((pos - 1 - p) as u32))
}

/// Whether one of the fields is not among the arguments.
pub open spec fn some_hidden(ps: Seq<u32>, args: Seq<Term>, pos: nat) -> bool {
    exists|i: int| 0 <= i < ps.len() && !field_shown(args, pos, #[trigger] ps[i])
}

/// Whether a constructor has a field of data that its conclusion does not show.
#[verifier::opaque]
pub open spec fn hides_data(k: K, s: Sem, m: Mode, c: u32) -> Res<bool> {
    match find(k.env, c) {
        Some(Info::Constructor { typ, num_params, .. }) => match data_fields(
            k,
            s,
            m,
            Seq::empty(),
            typ,
            0,
            num_params,
            Seq::empty(),
            STEP_LIMIT as nat,
        ) {
            Err(f) => Err(f),
            Ok((ps, pos, concl)) => Ok(some_hidden(ps, spine_args(concl), pos)),
        },
        _ => Ok(false),
    }
}

/// Whether the values of a group may be eliminated into propositions alone: the
/// group may be propositions, and a proof may hold more than its type shows.
#[verifier::opaque]
pub open spec fn elim_only_spec(k: K, s: Sem, m: Mode, all: Seq<u32>) -> Res<bool> {
    match find(k.env, all[0]) {
        Some(Info::InductiveType { num_params, num_indices, typ, ctors, .. }) => match open_spec(
            k,
            s,
            m,
            Seq::empty(),
            typ,
            (num_params + num_indices) as nat,
        ) {
            Err(f) => Err(f),
            Ok((c, t)) => match ensure_sort_spec(k, s, m, c, t) {
                Err(f) => Err(f),
                Ok(l) => if univ_positive(l) {
                    Ok(false)
                } else if all.len() > 1 || ctors.len() > 1 {
                    Ok(true)
                } else if ctors.len() == 0 {
                    Ok(false)
                } else {
                    hides_data(k, s, m, ctors[0])
                },
            },
        },
        _ => Ok(false),
    }
}

/// A number put into its place in an increasing list, once.
pub open spec fn insert_id(v: Seq<u32>, x: u32) -> Seq<u32>
    decreases v.len(),
{
    if v.len() == 0 {
        seq![x]
    } else if x == v.last() {
        v
    } else if x > v.last() {
        v.push(x)
    } else {
        insert_id(v.drop_last(), x).push(v.last())
    }
}

/// The recursors of the types from position `i` on, in increasing order, each
/// once.
pub open spec fn group_recursors(k: K, all: Seq<u32>, i: nat, acc: Seq<u32>) -> Seq<u32>
    decreases all.len() - i,
{
    if i >= all.len() {
        acc
    } else {
        match rec_of(k.env, all[i as int]) {
            Some(r) => group_recursors(k, all, i + 1, insert_id(acc, r)),
            None => group_recursors(k, all, i + 1, acc),
        }
    }
}

/// Whether what a motive gives, behind all its arguments, are propositions.
pub open spec fn motive_small(k: K, s: Sem, m: Mode, ctx: Seq<Term>, t: Term, n: nat) -> bool
    decreases n,
{
    match ensure_pi_spec(k, s, m, ctx, t) {
        Ok((_, dom, body)) => n > 0 && motive_small(
            k,
            s,
            m,
            ctx.push(dom),
            body,
            (n - 1) as nat,
        ),
        Err(_) => match ensure_sort_spec(k, s, m, ctx, t) {
            Ok(l) => univ_eq(l, Univ::Zero),
            Err(_) => false,
        },
    }
}

/// What is said of a recursor that eliminates into more than propositions.
pub open spec fn large_elim_text(name: Seq<char>) -> Seq<char> {
    "recursor `"@ + name
        + "` allows large elimination out of a Prop-valued inductive that is not a subsingleton"@
}

/// Whether the next `n` motives of a recursor give propositions.
pub open spec fn motives_small(k: K, s: Sem, m: Mode, ctx: Seq<Term>, t: Term, n: nat, rec: u32) -> Res<
    (),
>
    decreases n,
{
    if n == 0 {
        Ok(())
    } else {
        match ensure_pi_spec(k, s, m, ctx, t) {
            Err(f) => Err(f),
            Ok((_, dom, body)) => if !motive_small(k, s, m, ctx, dom, STEP_LIMIT as nat) {
                Err(Fault::Reject(large_elim_text(name_of(k, rec))))
            } else {
                motives_small(k, s, m, ctx.push(dom), body, (n - 1) as nat, rec)
            },
        }
    }
}

/// Whether a recursor eliminates into propositions alone.
#[verifier::opaque]
pub open spec fn rec_small(k: K, s: Sem, m: Mode, rec: u32) -> Res<()> {
    match find(k.env, rec) {
        Some(Info::Recursor { typ, num_params, num_motives, .. }) => match open_spec(
            k,
            s,
            m,
            Seq::empty(),
            typ,
            num_params as nat,
        ) {
            Err(f) => Err(f),
            Ok((c, t)) => motives_small(k, s, m, c, t, num_motives as nat, rec),
        },
        _ => Ok(()),
    }
}

/// Whether the recursors from position `i` on eliminate into propositions alone.
pub open spec fn recs_small(k: K, s: Sem, m: Mode, recs: Seq<u32>, i: nat) -> Res<()>
    decreases recs.len() - i,
{
    if i >= recs.len() {
        Ok(())
    } else {
        match rec_small(k, s, m, recs[i as int]) {
            Err(f) => Err(f),
            Ok(()) => recs_small(k, s, m, recs, i + 1),
        }
    }
}

/// Whether the recursors of a group respect what it may be eliminated into. This
/// is looked at once, with the group's first type.
#[verifier::opaque]
pub open spec fn elimination_ok(k: K, s: Sem, m: Mode, all: Seq<u32>, first: u32) -> Res<()> {
    if all.len() == 0 || all[0] != first {
        Ok(())
    } else {
        match elim_only_spec(k, s, m, all) {
            Err(f) => Err(f),
            Ok(false) => Ok(()),
            Ok(true) => recs_small(k, s, m, group_recursors(k, all, 0, Seq::empty()), 0),
        }
    }
}

/// Whether a group of inductive types is well formed, given what its types share.
#[verifier::opaque]
pub open spec fn group_ok(k: K, s: Sem, m: Mode, sh: Shared, first: u32) -> Res<()> {
    match type_shapes(k, s, m, sh, 0, Seq::empty()) {
        Err(f) => Err(f),
        Ok(shapes) => match all_ctors_ok(k, s, m, sh, shapes, 0) {
            Err(f) => Err(f),
            Ok(()) => elimination_ok(k, s, m, sh.all, first),
        },
    }
}

/// Whether the group of an inductive type is well formed.
#[verifier::opaque]
pub open spec fn inductive_group_spec(k: K, s: Sem, m: Mode, first: u32) -> Res<()> {
    match find(k.env, first) {
        None => Err(Fault::Other("missing inductive"@)),
        Some(Info::InductiveType { typ, num_params, all, level_params, .. }) => if repeats(
            level_params,
        ) {
            Err(Fault::Reject("inductive type: duplicate universe parameter"@))
        } else {
            match open_spec(k, s, m, Seq::empty(), typ, num_params as nat) {
                Err(f) => Err(f),
                Ok((params, _)) => group_ok(
                    k,
                    s,
                    m,
                    Shared { num_params, params, level_params, all },
                    first,
                ),
            }
        },
        Some(_) => Ok(()),
    }
}

proof fn lemma_shapes_ok(
    k: K,
    s: Sem,
    m: Mode,
    sh: Shared,
    i: nat,
    acc: Seq<Option<(u32, Univ)>>,
    j: nat,
)
    requires
        i == acc.len(),
        j < sh.all.len(),
        forall|x: int|
            0 <= x < i ==> type_shape(k, s, m, sh, sh.all[x]) == Ok::<Option<(u32, Univ)>, Fault>(
                #[trigger] acc[x],
            ),
    ensures
        type_shapes(k, s, m, sh, i, acc) matches Ok(shapes) ==> (i <= sh.all.len() ==> shapes.len()
            == sh.all.len() && type_shape(k, s, m, sh, sh.all[j as int]) == Ok::<
            Option<(u32, Univ)>,
            Fault,
        >(shapes[j as int])),
    decreases sh.all.len() - i,
{
    if i < sh.all.len() {
        match type_shape(k, s, m, sh, sh.all[i as int]) {
            Err(_) => {},
            Ok(x) => {
                let acc2 = acc.push(x);
                assert forall|y: int| 0 <= y < i + 1 implies type_shape(k, s, m, sh, sh.all[y])
                    == Ok::<Option<(u32, Univ)>, Fault>(#[trigger] acc2[y]) by {
                    if y < i {
                        assert(acc2[y] == acc[y]);
                    }
                }
                lemma_shapes_ok(k, s, m, sh, i + 1, acc2, j);
            },
        }
    }
}

proof fn lemma_ctors_ok(
    k: K,
    s: Sem,
    m: Mode,
    sh: Shared,
    t: u32,
    ni: u32,
    sort: Univ,
    ctors: Seq<u32>,
    i: nat,
    x: nat,
)
    requires
        i <= x < ctors.len(),
        ctors_ok(k, s, m, sh, t, ni, sort, ctors, i) is Ok,
    ensures
        ctor_ok(k, s, m, sh, t, ni, sort, ctors[x as int]) is Ok,
    decreases x - i,
{
    if i < x {
        lemma_ctors_ok(k, s, m, sh, t, ni, sort, ctors, i + 1, x);
    }
}

proof fn lemma_all_ctors_ok(
    k: K,
    s: Sem,
    m: Mode,
    sh: Shared,
    shapes: Seq<Option<(u32, Univ)>>,
    i: nat,
    j: nat,
)
    requires
        i <= j < sh.all.len(),
        all_ctors_ok(k, s, m, sh, shapes, i) is Ok,
    ensures
        all_ctors_ok(k, s, m, sh, shapes, j) is Ok,
    decreases j - i,
{
    if i < j {
        lemma_all_ctors_ok(k, s, m, sh, shapes, i + 1, j);
    }
}

/// Whether a term is the type `t` at the universe parameters and parameters of its
/// group, with indices that do not mention the group.
pub open spec fn concludes(
    s: Sem,
    m: Mode,
    ctx: Seq<Term>,
    e: Term,
    t: u32,
    num_indices: u32,
    sh: Shared,
) -> bool {
    let args = spine_args(e);
    spine_head(e) matches Term::Const(c, us) && c == t && univs_eq(
        us,
        param_levels(sh.level_params),
    ) && args.len() == sh.num_params + num_indices && are_params(
        s,
        m,
        ctx,
        args,
        0,
        sh.num_params as nat,
    ) == Ok::<bool, Fault>(true) && !occurs_in_any(args.skip(sh.num_params as int), sh.all)
}

/// Whether a constructor of the type `t` agrees with its group: it has the same
/// parameters and universe parameters, and what stands behind its parameters and
/// fields is its own type.
pub open spec fn ctor_agrees(
    k: K,
    s: Sem,
    m: Mode,
    sh: Shared,
    t: u32,
    num_indices: u32,
    sort: Univ,
    c: u32,
) -> bool {
    find(k.env, c) matches Some(Info::Constructor { level_params, typ, num_params, .. }) ==> {
        &&& level_params == sh.level_params
        &&& num_params == sh.num_params
        &&& open_params(
            k,
            s,
            m,
            Seq::empty(),
            typ,
            sh.params,
            0,
            sh.num_params as nat,
            "constructor parameter telescope does not match inductive type"@,
        ) matches Ok((c1, t1)) && (open_fields(k, s, m, c1, t1, sh, sort) matches Ok((c2, e))
            && concludes(s, m, c2, e, t, num_indices, sh))
    }
}

/// Whether all the constructors of the type `t` agree with its group.
pub open spec fn ctors_agree(
    k: K,
    s: Sem,
    m: Mode,
    sh: Shared,
    t: u32,
    num_indices: u32,
    sort: Univ,
    ctors: Seq<u32>,
) -> bool {
    forall|x: int|
        0 <= x < ctors.len() ==> ctor_agrees(
            k,
            s,
            m,
            sh,
            t,
            num_indices,
            sort,
            #[trigger] ctors[x],
        )
}

/// What the types of the group of `first` share.
pub open spec fn shared_by(k: K, s: Sem, m: Mode, first: u32) -> Option<Shared> {
    match find(k.env, first) {
        Some(Info::InductiveType { typ, num_params, all, level_params, .. }) => match open_spec(
            k,
            s,
            m,
            Seq::empty(),
            typ,
            num_params as nat,
        ) {
            Ok((params, _)) => Some(Shared { num_params, params, level_params, all }),
            Err(_) => None,
        },
        _ => None,
    }
}

/// In a group that is accepted, no universe parameter is named twice, all the
/// types have the same number of parameters and the same universe parameters, and
/// so has every constructor, whose conclusion is its own type at those parameters.
pub proof fn law_group_agrees(k: K, s: Sem, m: Mode, first: u32, j: nat)
    requires
        inductive_group_spec(k, s, m, first) is Ok,
        find(k.env, first) matches Some(Info::InductiveType { all, .. }) && j < all.len(),
    ensures
        shared_by(k, s, m, first) matches Some(sh) && !repeats(sh.level_params) && (find(
            k.env,
            sh.all[j as int],
        ) matches Some(
            Info::InductiveType { num_params, level_params, num_indices, ctors, .. },
        ) ==> num_params == sh.num_params && level_params == sh.level_params && (exists|sort: Univ| #[trigger]
            ctors_agree(k, s, m, sh, sh.all[j as int], num_indices, sort, ctors))),
{
    reveal(inductive_group_spec);
    reveal(group_ok);
    reveal(type_shape);
    let sh = shared_by(k, s, m, first).unwrap();
    lemma_shapes_ok(k, s, m, sh, 0, Seq::empty(), j);
    let shapes = type_shapes(k, s, m, sh, 0, Seq::empty())->Ok_0;
    match find(k.env, sh.all[j as int]) {
        Some(Info::InductiveType { num_indices, ctors, .. }) => {
            let sort = shapes[j as int].unwrap().1;
            lemma_all_ctors_ok(k, s, m, sh, shapes, 0, j);
            assert forall|x: int| 0 <= x < ctors.len() implies ctor_agrees(
                k,
                s,
                m,
                sh,
                sh.all[j as int],
                num_indices,
                sort,
                #[trigger] ctors[x],
            ) by {
                lemma_ctors_ok(
                    k,
                    s,
                    m,
                    sh,
                    sh.all[j as int],
                    num_indices,
                    sort,
                    ctors,
                    0,
                    x as nat,
                );
                reveal(ctor_ok);
                reveal(conclusion_ok);
            }
            assert(ctors_agree(k, s, m, sh, sh.all[j as int], num_indices, sort, ctors));
        },
        _ => {},
    }
}

/// The types of the binders of a type.
pub open spec fn pi_doms(t: Term) -> Seq<Term>
    decreases t,
{
    match t {
        Term::Pi(_, d, b) => seq![*d] + pi_doms(*b),
        _ => Seq::empty(),
    }
}

proof fn lemma_data_fields(
    k: K,
    s: Sem,
    m: Mode,
    ctx: Seq<Term>,
    t: Term,
    pos: nat,
    np: u32,
    acc: Seq<u32>,
    n: nat,
)
    ensures
        data_fields(k, s, m, ctx, t, pos, np, acc, n) matches Ok((ps, end, concl)) ==> {
            &&& end == pos + pi_doms(t).len()
            &&& concl == pi_target(t)
            &&& forall|p: u32| acc.contains(p) ==> #[trigger] ps.contains(p)
            &&& forall|q: int|
                0 <= q < pi_doms(t).len() && pos + q >= np && holds_data(
                    k,
                    s,
                    m,
                    ctx + pi_doms(t).take(q),
                    #[trigger] pi_doms(t)[q],
                ) ==> ps.contains((pos + q) as u32)
        },
    decreases t,
{
    match t {
        Term::Pi(_, dom, body) => {
            if n > 0 {
                let acc2 = if pos >= np && holds_data(k, s, m, ctx, *dom) {
                    acc.push(pos as u32)
                } else {
                    acc
                };
                lemma_data_fields(
                    k,
                    s,
                    m,
                    ctx.push(*dom),
                    *body,
                    pos + 1,
                    np,
                    acc2,
                    (n - 1) as nat,
                );
                let ds = pi_doms(t);
                let rest = pi_doms(*body);
                match data_fields(k, s, m, ctx, t, pos, np, acc, n) {
                    Ok((ps, _, _)) => {
                        assert forall|p: u32| acc.contains(p) implies #[trigger] ps.contains(p) by {
                            let x = choose|x: int| 0 <= x < acc.len() && acc[x] == p;
                            assert(acc2[x] == p);
                            assert(acc2.contains(p));
                        }
                        assert forall|q: int|
                            0 <= q < ds.len() && pos + q >= np && holds_data(
                                k,
                                s,
                                m,
                                ctx + ds.take(q),
                                #[trigger] ds[q],
                            ) implies ps.contains((pos + q) as u32) by {
                            if q == 0 {
                                assert(ctx + ds.take(0) =~= ctx);
                                assert(acc2[acc.len() as int] == pos as u32);
                                assert(acc2.contains(pos as u32));
                            } else {
                                assert(ds[q] == rest[q - 1]);
                                assert(ctx + ds.take(q) =~= ctx.push(*dom) + rest.take(q - 1));
                            }
                        }
                    },
                    Err(_) => {},
                }
            }
        },
        _ => {},
    }
}

/// Where a group of one type that may be a proposition, with one constructor, may
/// be eliminated into anything, every field of the constructor whose sort is not
/// that of propositions is among the arguments of its conclusion.
pub proof fn law_hidden_data_restricts(
    k: K,
    s: Sem,
    m: Mode,
    all: Seq<u32>,
    c: u32,
    typ: Term,
    np: u32,
    p: u32,
)
    requires
        all.len() == 1,
        elim_only_spec(k, s, m, all) == Ok::<bool, Fault>(false),
        may_be_prop(k, s, m, all[0]),
        find(k.env, all[0]) matches Some(Info::InductiveType { ctors, .. }) && ctors == seq![c],
        find(k.env, c) matches Some(Info::Constructor { typ: t, num_params: n, .. }) && t == typ
            && n == np,
        np <= p < pi_doms(typ).len(),
        holds_data(k, s, m, pi_doms(typ).take(p as int), pi_doms(typ)[p as int]),
    ensures
        field_shown(spine_args(pi_target(typ)), pi_doms(typ).len(), p),
{
    reveal(elim_only_spec);
    reveal(hides_data);
    let none = Seq::<Term>::empty();
    lemma_data_fields(k, s, m, none, typ, 0, np, Seq::empty(), STEP_LIMIT as nat);
    assert(none + pi_doms(typ).take(p as int) =~= pi_doms(typ).take(p as int));
    match data_fields(k, s, m, none, typ, 0, np, Seq::empty(), STEP_LIMIT as nat) {
        Ok((ps, end, concl)) => {
            assert(ps.contains(p));
            let i = choose|i: int| 0 <= i < ps.len() && ps[i] == p;
            assert(!some_hidden(ps, spine_args(concl), end));
            assert(field_shown(spine_args(concl), end, ps[i]));
        },
        Err(_) => {},
    }
}

/// Whether an inductive type is a proposition for some choice of the universe
/// parameters.
pub open spec fn may_be_prop(k: K, s: Sem, m: Mode, t: u32) -> bool {
    find(k.env, t) matches Some(Info::InductiveType { num_params, num_indices, typ, .. }) && (
    open_spec(
        k,
        s,
        m,
        Seq::empty(),
        typ,
        (num_params + num_indices) as nat,
    ) matches Ok((c, b)) && (ensure_sort_spec(k, s, m, c, b) matches Ok(l) && !univ_positive(l)))
}

proof fn lemma_recs_small(k: K, s: Sem, m: Mode, recs: Seq<u32>, i: nat, j: nat)
    requires
        i <= j < recs.len(),
        recs_small(k, s, m, recs, i) is Ok,
    ensures
        rec_small(k, s, m, recs[j as int]) is Ok,
    decreases j - i,
{
    if i < j {
        lemma_recs_small(k, s, m, recs, i + 1, j);
    }
}

/// In a group that is accepted and may be eliminated into propositions alone,
/// every recursor does no more than that.
pub proof fn law_prop_elimination(k: K, s: Sem, m: Mode, first: u32, j: nat)
    requires
        inductive_group_spec(k, s, m, first) is Ok,
        find(k.env, first) matches Some(Info::InductiveType { all, .. }) && all.len() > 0 && all[0]
            == first && elim_only_spec(k, s, m, all) == Ok::<bool, Fault>(true) && j
            < group_recursors(k, all, 0, Seq::empty()).len(),
    ensures
        find(k.env, first) matches Some(Info::InductiveType { all, .. }) && rec_small(
            k,
            s,
            m,
            group_recursors(k, all, 0, Seq::empty())[j as int],
        ) is Ok,
{
    reveal(inductive_group_spec);
    reveal(group_ok);
    reveal(elimination_ok);
    match find(k.env, first) {
        Some(Info::InductiveType { all, .. }) => {
            lemma_recs_small(k, s, m, group_recursors(k, all, 0, Seq::empty()), 0, j);
        },
        _ => {},
    }
}

/// What the types of a group share.
pub struct SharedParts {
    pub num_params: u32,
    pub params: Ctx,
    pub level_params: Vec<u32>,
    pub bound: Bound,
}

impl View for SharedParts {
    type V = Shared;

    open spec fn view(&self) -> Shared {
        Shared {
            num_params: self.num_params,
            params: self.params@,
            level_params: self.level_params@,
            all: self.bound.names@,
        }
    }
}

pub(crate) fn mk_param_levels(ps: &Vec<u32>) -> (r: Vec<Level>)
    ensures
        r.deep_view() == param_levels(ps@),
{
    let mut out: Vec<Level> = Vec::new();
    let mut i: usize = 0;
    while i < ps.len()
        invariant
            i <= ps.len(),
            out.len() == i,
            forall|j: int| 0 <= j < i ==> (#[trigger] out@[j])@ == Univ::Param(ps@[j]),
        decreases ps.len() - i,
    {
        out.push(param(ps[i]));
        i = i + 1;
    }
    assert(out.deep_view() =~= param_levels(ps@));
    out
}

fn put_id(v: &Vec<u32>, n: usize, x: u32) -> (r: Vec<u32>)
    requires
        n <= v.len(),
    ensures
        r@ == insert_id(v@.take(n as int), x),
    decreases n,
{
    let ghost front = v@.take(n as int);
    if n == 0 {
        let one = vec![x];
        assert(one@ =~= seq![x]);
        return one;
    }
    let last = v[n - 1];
    assert(front.last() == last);
    assert(front.drop_last() =~= v@.take(n - 1));
    if x >= last {
        let mut out: Vec<u32> = Vec::new();
        let mut i: usize = 0;
        while i < n
            invariant
                i <= n <= v.len(),
                out@ == v@.take(i as int),
            decreases n - i,
        {
            out.push(v[i]);
            assert(out@ =~= v@.take(i + 1));
            i = i + 1;
        }
        if x > last {
            out.push(x);
        }
        return out;
    }
    let mut out = put_id(v, n - 1, x);
    out.push(last);
    out
}

fn has_expr(v: &Vec<Expr>, e: &Expr) -> (r: bool)
    ensures
        r == v.deep_view().contains(e@),
{
    let mut i: usize = 0;
    while i < v.len()
        invariant
            i <= v.len(),
            forall|j: int| 0 <= j < i ==> #[trigger] v.deep_view()[j] != e@,
        decreases v.len() - i,
    {
        if rec_expr_eq(&v[i], e) {
            assert(v.deep_view()[i as int] == e@);
            return true;
        }
        i = i + 1;
    }
    false
}

fn contains_group(ts: &Vec<Expr>, names: &Vec<u32>) -> (r: bool)
    ensures
        r == occurs_in_any(ts.deep_view(), names@),
{
    let mut i: usize = 0;
    while i < ts.len()
        invariant
            i <= ts.len(),
            forall|j: int| 0 <= j < i ==> !occurs_any_spec(#[trigger] ts.deep_view()[j], names@),
        decreases ts.len() - i,
    {
        if occurs_any(&ts[i], names) {
            assert(occurs_any_spec(ts.deep_view()[i as int], names@));
            return true;
        }
        i = i + 1;
    }
    false
}

impl<'e> Checker<'e> {
    fn open_same_params(&self, m: Mode, t: &Expr, params: &Ctx, n: u32, msg: &str) -> (r: R<
        (Ctx, Expr),
    >)
        requires
            n <= params@.len(),
        ensures
            res(r) == open_params(
                self@,
                sem_at(self@, self.budget),
                m,
                Seq::empty(),
                t@,
                params@,
                0,
                n as nat,
                msg@,
            ),
    {
        let ghost s = sem_at(self@, self.budget);
        let mut c = Ctx::new();
        let mut cur = t.clone();
        let mut i: u32 = 0;
        assert(c@ =~= Seq::<Term>::empty());
        while i < n
            invariant
                i <= n <= params@.len(),
                s == sem_at(self@, self.budget),
                open_params(
                    self@,
                    s,
                    m,
                    c@,
                    cur@,
                    params@,
                    i as nat,
                    n as nat,
                    msg@,
                ) == open_params(
                    self@,
                    s,
                    m,
                    Seq::empty(),
                    t@,
                    params@,
                    0,
                    n as nat,
                    msg@,
                ),
            decreases n - i,
        {
            let (_, dom, body) = self.ensure_pi_at(self.budget, m, &c, &cur)?;
            if !self.defeq_at(self.budget, m, &c, &dom, params.at(i as usize))? {
                return reject(msg);
            }
            c.push(dom);
            cur = body;
            i = i + 1;
        }
        Ok((c, cur))
    }

    fn check_type_shape(&self, m: Mode, sh: &SharedParts, t: u32) -> (r: R<Option<(u32, Level)>>)
        requires
            sh.num_params <= sh.params@.len(),
        ensures
            res(r) == type_shape(self@, sem_at(self@, self.budget), m, sh@, t),
    {
        proof {
            reveal(type_shape);
        }
        match self.env.get(t) {
            Some(
                ConstantInfo::InductiveType { num_params, num_indices, typ, level_params, .. },
            ) => {
                if *num_params != sh.num_params {
                    return reject("inconsistent numParams across mutual inductive group");
                }
                if !same_ids(level_params, &sh.level_params) {
                    return reject("inconsistent universe parameters across mutual inductive group");
                }
                let (c1, t1) = self.open_same_params(
                    m,
                    typ,
                    &sh.params,
                    *num_params,
                    "inductive type's parameter telescope is inconsistent",
                )?;
                let (c2, t2) = self.open_binders(self.budget, m, &c1, &t1, *num_indices)?;
                let l = self.ensure_sort_at(self.budget, m, &c2, &t2)?;
                Ok(Some((*num_indices, l)))
            },
            _ => Ok(None),
        }
    }

    fn check_type_shapes(&self, m: Mode, sh: &SharedParts) -> (r: R<Vec<Option<(u32, Level)>>>)
        requires
            sh.num_params <= sh.params@.len(),
        ensures
            res(r) == type_shapes(
                self@,
                sem_at(self@, self.budget),
                m,
                sh@,
                0,
                Seq::empty(),
            ),
            r matches Ok(v) ==> v.len() == sh@.all.len(),
    {
        let ghost s = sem_at(self@, self.budget);
        let mut out: Vec<Option<(u32, Level)>> = Vec::new();
        let mut i: usize = 0;
        assert(out.deep_view() =~= Seq::<Option<(u32, Univ)>>::empty());
        while i < sh.bound.names.len()
            invariant
                i <= sh.bound.names.len(),
                out.len() == i,
                sh.num_params <= sh.params@.len(),
                s == sem_at(self@, self.budget),
                type_shapes(self@, s, m, sh@, i as nat, out.deep_view()) == type_shapes(
                    self@,
                    s,
                    m,
                    sh@,
                    0,
                    Seq::empty(),
                ),
            decreases sh.bound.names.len() - i,
        {
            let x = self.check_type_shape(m, sh, sh.bound.names[i])?;
            let ghost before = out.deep_view();
            let ghost xv = x.deep_view();
            out.push(x);
            assert(out.deep_view() =~= before.push(xv));
            i = i + 1;
        }
        Ok(out)
    }

    fn check_field_fits(&self, m: Mode, ctx: &Ctx, dom: &Expr, sort: &Level) -> (r: R<()>)
        ensures
            res(r) == field_fits(
                self@,
                sem_at(self@, self.budget),
                m,
                ctx@,
                dom@,
                sort@,
            ),
    {
        let ds = self.infer_at(self.budget, m, ctx, dom)?;
        match self.ensure_sort_at(self.budget, m, ctx, &ds) {
            Ok(l) => {
                if is_too_big(&l, sort) {
                    return reject("constructor field universe is too big for the inductive type");
                }
                Ok(())
            },
            Err(_) => Ok(()),
        }
    }

    fn open_ctor_fields(&self, m: Mode, ctx: &Ctx, t: &Expr, sh: &SharedParts, sort: &Level) -> (r:
        R<(Ctx, Expr)>)
        requires
            sh.bound.num_params == sh.num_params,
        ensures
            res(r) == open_fields(
                self@,
                sem_at(self@, self.budget),
                m,
                ctx@,
                t@,
                sh@,
                sort@,
            ),
    {
        let ghost s = sem_at(self@, self.budget);
        let none: Vec<(u32, Vec<Expr>)> = Vec::new();
        assert(none.deep_view() =~= Seq::<(u32, Seq<Term>)>::empty());
        let mut c = ctx.clone();
        let mut cur = t.clone();
        loop
            invariant
                sh.bound.num_params == sh.num_params,
                none.deep_view() == Seq::<(u32, Seq<Term>)>::empty(),
                s == sem_at(self@, self.budget),
                open_fields(self@, s, m, c@, cur@, sh@, sort@) == open_fields(
                    self@,
                    s,
                    m,
                    ctx@,
                    t@,
                    sh@,
                    sort@,
                ),
            decreases cur@,
        {
            let next = match cur.data() {
                ExprData::Pi(_, dom, body) => Some((dom.clone(), body.clone())),
                _ => None,
            };
            match next {
                None => {
                    return Ok((c, cur));
                },
                Some((dom, body)) => {
                    self.check_arg_positive_in(m, &c, &dom, &sh.bound, &none, NEST_LIMIT)?;
                    self.check_field_fits(m, &c, &dom, sort)?;
                    c.push(dom);
                    cur = body;
                },
            }
        }
    }

    fn check_ctor_conclusion(
        &self,
        m: Mode,
        ctx: &Ctx,
        e: &Expr,
        t: u32,
        num_indices: u32,
        sh: &SharedParts,
    ) -> (r: R<()>)
        ensures
            res(r) == conclusion_ok(
                sem_at(self@, self.budget),
                m,
                ctx@,
                e@,
                t,
                num_indices,
                sh@,
            ),
    {
        proof {
            reveal(conclusion_ok);
        }
        let (head, args) = unfold_apps(e);
        assert(args.len() == args.deep_view().len());
        match head.data() {
            ExprData::Const(c, us) => {
                if *c != t {
                    return reject("constructor conclusion is not the inductive type being defined");
                }
                if !levels_def_eq(us, &mk_param_levels(&sh.level_params)) {
                    return reject(
                        "constructor conclusion applies inductive type at wrong universes",
                    );
                }
                if args.len() as u64 != sh.num_params as u64 + num_indices as u64 {
                    return reject("constructor conclusion has wrong number of arguments");
                }
                if !self.args_are_params(m, ctx, &args, sh.num_params)? {
                    return reject(
                        "constructor does not apply the inductive type to its own shared parameters",
                    );
                }
                if contains_group(&exprs_from(&args, sh.num_params as usize), &sh.bound.names) {
                    return reject(
                        "constructor index expression refers to the inductive type being defined",
                    );
                }
                Ok(())
            },
            _ => reject("constructor conclusion is not the inductive type being defined"),
        }
    }

    fn check_ctor(
        &self,
        m: Mode,
        sh: &SharedParts,
        t: u32,
        num_indices: u32,
        sort: &Level,
        c: u32,
    ) -> (r: R<()>)
        requires
            sh.num_params <= sh.params@.len(),
            sh.bound.num_params == sh.num_params,
        ensures
            res(r) == ctor_ok(
                self@,
                sem_at(self@, self.budget),
                m,
                sh@,
                t,
                num_indices,
                sort@,
                c,
            ),
    {
        proof {
            reveal(ctor_ok);
        }
        match self.env.get(c) {
            Some(ConstantInfo::Constructor { level_params, typ, num_params, .. }) => {
                if !same_ids(level_params, &sh.level_params) {
                    return reject("constructor universe parameters do not match inductive type");
                }
                if *num_params != sh.num_params {
                    return reject("constructor numParams does not match inductive type");
                }
                let (c1, t1) = self.open_same_params(
                    m,
                    typ,
                    &sh.params,
                    sh.num_params,
                    "constructor parameter telescope does not match inductive type",
                )?;
                let (c2, e) = self.open_ctor_fields(m, &c1, &t1, sh, sort)?;
                self.check_ctor_conclusion(m, &c2, &e, t, num_indices, sh)
            },
            _ => Ok(()),
        }
    }

    fn check_ctors(
        &self,
        m: Mode,
        sh: &SharedParts,
        t: u32,
        num_indices: u32,
        sort: &Level,
        ctors: &Vec<u32>,
    ) -> (r: R<()>)
        requires
            sh.num_params <= sh.params@.len(),
            sh.bound.num_params == sh.num_params,
        ensures
            res(r) == ctors_ok(
                self@,
                sem_at(self@, self.budget),
                m,
                sh@,
                t,
                num_indices,
                sort@,
                ctors@,
                0,
            ),
    {
        let ghost s = sem_at(self@, self.budget);
        let mut i: usize = 0;
        while i < ctors.len()
            invariant
                i <= ctors.len(),
                sh.num_params <= sh.params@.len(),
                sh.bound.num_params == sh.num_params,
                s == sem_at(self@, self.budget),
                ctors_ok(self@, s, m, sh@, t, num_indices, sort@, ctors@, i as nat) == ctors_ok(
                    self@,
                    s,
                    m,
                    sh@,
                    t,
                    num_indices,
                    sort@,
                    ctors@,
                    0,
                ),
            decreases ctors.len() - i,
        {
            self.check_ctor(m, sh, t, num_indices, sort, ctors[i])?;
            i = i + 1;
        }
        Ok(())
    }

    fn check_all_ctors(&self, m: Mode, sh: &SharedParts, shapes: &Vec<Option<(u32, Level)>>) -> (r:
        R<()>)
        requires
            sh.num_params <= sh.params@.len(),
            sh.bound.num_params == sh.num_params,
            shapes.len() == sh@.all.len(),
        ensures
            res(r) == all_ctors_ok(
                self@,
                sem_at(self@, self.budget),
                m,
                sh@,
                shapes.deep_view(),
                0,
            ),
    {
        let ghost s = sem_at(self@, self.budget);
        let ghost sv = shapes.deep_view();
        let mut i: usize = 0;
        while i < sh.bound.names.len()
            invariant
                i <= sh.bound.names.len(),
                sh.num_params <= sh.params@.len(),
                sh.bound.num_params == sh.num_params,
                shapes.len() == sh.bound.names.len(),
                sv == shapes.deep_view(),
                s == sem_at(self@, self.budget),
                all_ctors_ok(self@, s, m, sh@, sv, i as nat) == all_ctors_ok(
                    self@,
                    s,
                    m,
                    sh@,
                    sv,
                    0,
                ),
            decreases sh.bound.names.len() - i,
        {
            let t: u32 = sh.bound.names[i];
            assert(sv[i as int] == shapes@[i as int].deep_view());
            match (self.env.get(t), &shapes[i]) {
                (Some(ConstantInfo::InductiveType { ctors, .. }), Some((ni, sort))) => {
                    self.check_ctors(m, sh, t, *ni, sort, ctors)?;
                },
                _ => {},
            }
            i = i + 1;
        }
        Ok(())
    }

    fn field_holds_data(&self, m: Mode, ctx: &Ctx, dom: &Expr) -> (r: bool)
        ensures
            r == holds_data(self@, sem_at(self@, self.budget), m, ctx@, dom@),
    {
        match self.infer_at(self.budget, m, ctx, dom) {
            Ok(ds) => match self.ensure_sort_at(self.budget, m, ctx, &ds) {
                Ok(l) => !is_def_eq(&l, &zero()),
                Err(_) => false,
            },
            Err(_) => false,
        }
    }

    fn find_data_fields(&self, m: Mode, t: &Expr, np: u32) -> (r: R<(Vec<u32>, u32, Expr)>)
        ensures
            match r {
                Ok((ps, pos, e)) => data_fields(
                    self@,
                    sem_at(self@, self.budget),
                    m,
                    Seq::empty(),
                    t@,
                    0,
                    np,
                    Seq::empty(),
                    STEP_LIMIT as nat,
                ) == Ok::<(Seq<u32>, nat, Term), Fault>((ps@, pos as nat, e@)) && forall|j: int|
                    0 <= j < ps.len() ==> #[trigger] ps@[j] < pos,
                Err(f) => data_fields(
                    self@,
                    sem_at(self@, self.budget),
                    m,
                    Seq::empty(),
                    t@,
                    0,
                    np,
                    Seq::empty(),
                    STEP_LIMIT as nat,
                ) == Err::<(Seq<u32>, nat, Term), Fault>(f@),
            },
    {
        let ghost s = sem_at(self@, self.budget);
        let mut c = Ctx::new();
        let mut cur = t.clone();
        let mut pos: u32 = 0;
        let mut out: Vec<u32> = Vec::new();
        assert(c@ =~= Seq::<Term>::empty());
        assert(out@ =~= Seq::<u32>::empty());
        loop
            invariant
                pos <= STEP_LIMIT,
                s == sem_at(self@, self.budget),
                forall|j: int| 0 <= j < out.len() ==> #[trigger] out@[j] < pos,
                data_fields(
                    self@,
                    s,
                    m,
                    c@,
                    cur@,
                    pos as nat,
                    np,
                    out@,
                    (STEP_LIMIT - pos) as nat,
                ) == data_fields(
                    self@,
                    s,
                    m,
                    Seq::empty(),
                    t@,
                    0,
                    np,
                    Seq::empty(),
                    STEP_LIMIT as nat,
                ),
            decreases STEP_LIMIT - pos,
        {
            let next = match cur.data() {
                ExprData::Pi(_, dom, body) => Some((dom.clone(), body.clone())),
                _ => None,
            };
            match next {
                None => {
                    return Ok((out, pos, cur));
                },
                Some((dom, body)) => {
                    if pos == STEP_LIMIT {
                        return decline("WHNF step limit");
                    }
                    if pos >= np && self.field_holds_data(m, &c, &dom) {
                        out.push(pos);
                    }
                    c.push(dom);
                    cur = body;
                    pos = pos + 1;
                },
            }
        }
    }

    fn ctor_hides_data(&self, m: Mode, c: u32) -> (r: R<bool>)
        ensures
            res(r) == hides_data(self@, sem_at(self@, self.budget), m, c),
    {
        proof {
            reveal(hides_data);
        }
        let (typ, np) = match self.env.get(c) {
            Some(ConstantInfo::Constructor { typ, num_params, .. }) => (typ, *num_params),
            _ => {
                return Ok(false);
            },
        };
        let (ps, pos, concl) = self.find_data_fields(m, typ, np)?;
        let (_, args) = unfold_apps(&concl);
        let ghost av = args.deep_view();
        let mut i: usize = 0;
        while i < ps.len()
            invariant
                i <= ps.len(),
                av == args.deep_view(),
                forall|j: int| 0 <= j < ps.len() ==> #[trigger] ps@[j] < pos,
                forall|j: int| 0 <= j < i ==> field_shown(av, pos as nat, #[trigger] ps@[j]),
                hides_data(self@, sem_at(self@, self.budget), m, c) == Ok::<bool, Fault>(
                    some_hidden(ps@, av, pos as nat),
                ),
            decreases ps.len() - i,
        {
            assert(ps@[i as int] < pos);
            if !has_expr(&args, &bvar(pos - 1 - ps[i])) {
                assert(!field_shown(av, pos as nat, ps@[i as int]));
                return Ok(true);
            }
            i = i + 1;
        }
        Ok(false)
    }

    /// Whether the values of a group may be eliminated into propositions alone.
    pub fn elim_only_at_universe_zero(&self, m: Mode, all: &Vec<u32>) -> (r: R<bool>)
        requires
            all.len() > 0,
        ensures
            res(r) == elim_only_spec(self@, sem_at(self@, self.budget), m, all@),
    {
        proof {
            reveal(elim_only_spec);
        }
        let (np, ni, typ, ctors) = match self.env.get(all[0]) {
            Some(ConstantInfo::InductiveType { num_params, num_indices, typ, ctors, .. }) => (
                *num_params,
                *num_indices,
                typ,
                ctors,
            ),
            _ => {
                return Ok(false);
            },
        };
        let empty = Ctx::new();
        assert(empty@ =~= Seq::<Term>::empty());
        proof {
            lemma_open_split(
                self@,
                sem_at(self@, self.budget),
                m,
                empty@,
                typ@,
                np as nat,
                ni as nat,
            );
        }
        let (c1, t1) = self.open_binders(self.budget, m, &empty, typ, np)?;
        let (c, t) = self.open_binders(self.budget, m, &c1, &t1, ni)?;
        let l = self.ensure_sort_at(self.budget, m, &c, &t)?;
        if is_not_zero(&l) {
            return Ok(false);
        }
        if all.len() > 1 || ctors.len() > 1 {
            return Ok(true);
        }
        if ctors.len() == 0 {
            return Ok(false);
        }
        self.ctor_hides_data(m, ctors[0])
    }

    fn find_group_recursors(&self, all: &Vec<u32>) -> (r: Vec<u32>)
        ensures
            r@ == group_recursors(self@, all@, 0, Seq::empty()),
    {
        let mut out: Vec<u32> = Vec::new();
        let mut i: usize = 0;
        assert(out@ =~= Seq::<u32>::empty());
        while i < all.len()
            invariant
                i <= all.len(),
                group_recursors(self@, all@, i as nat, out@) == group_recursors(
                    self@,
                    all@,
                    0,
                    Seq::empty(),
                ),
            decreases all.len() - i,
        {
            match self.env.recursor_of(all[i]) {
                Some(r) => {
                    assert(out@.take(out.len() as int) =~= out@);
                    out = put_id(&out, out.len(), r);
                },
                None => {},
            }
            i = i + 1;
        }
        out
    }

    fn motive_is_small(&self, m: Mode, ctx: &Ctx, t: &Expr) -> (r: bool)
        ensures
            r == motive_small(
                self@,
                sem_at(self@, self.budget),
                m,
                ctx@,
                t@,
                STEP_LIMIT as nat,
            ),
    {
        let ghost s = sem_at(self@, self.budget);
        let mut c = ctx.clone();
        let mut cur = t.clone();
        let mut left: u32 = STEP_LIMIT;
        loop
            invariant
                left <= STEP_LIMIT,
                s == sem_at(self@, self.budget),
                motive_small(self@, s, m, c@, cur@, left as nat) == motive_small(
                    self@,
                    s,
                    m,
                    ctx@,
                    t@,
                    STEP_LIMIT as nat,
                ),
            decreases left,
        {
            match self.ensure_pi_at(self.budget, m, &c, &cur) {
                Ok((_, dom, body)) => {
                    if left == 0 {
                        return false;
                    }
                    c.push(dom);
                    cur = body;
                    left = left - 1;
                },
                Err(_) => {
                    return match self.ensure_sort_at(self.budget, m, &c, &cur) {
                        Ok(l) => is_def_eq(&l, &zero()),
                        Err(_) => false,
                    };
                },
            }
        }
    }

    fn check_motives(&self, m: Mode, ctx: &Ctx, t: &Expr, n: u32, rec: u32) -> (r: R<()>)
        ensures
            res(r) == motives_small(
                self@,
                sem_at(self@, self.budget),
                m,
                ctx@,
                t@,
                n as nat,
                rec,
            ),
    {
        let ghost s = sem_at(self@, self.budget);
        let mut c = ctx.clone();
        let mut cur = t.clone();
        let mut left: u32 = n;
        while left > 0
            invariant
                left <= n,
                s == sem_at(self@, self.budget),
                motives_small(self@, s, m, c@, cur@, left as nat, rec) == motives_small(
                    self@,
                    s,
                    m,
                    ctx@,
                    t@,
                    n as nat,
                    rec,
                ),
            decreases left,
        {
            let (_, dom, body) = self.ensure_pi_at(self.budget, m, &c, &cur)?;
            if !self.motive_is_small(m, &c, &dom) {
                let head = join("recursor `", self.name_str(rec));
                let msg = join(
                    head.as_str(),
                    "` allows large elimination out of a Prop-valued inductive that is not a subsingleton",
                );
                return reject(msg.as_str());
            }
            c.push(dom);
            cur = body;
            left = left - 1;
        }
        Ok(())
    }

    fn check_rec_small(&self, m: Mode, rec: u32) -> (r: R<()>)
        ensures
            res(r) == rec_small(self@, sem_at(self@, self.budget), m, rec),
    {
        proof {
            reveal(rec_small);
        }
        match self.env.get(rec) {
            Some(ConstantInfo::Recursor { typ, num_params, num_motives, .. }) => {
                let empty = Ctx::new();
                assert(empty@ =~= Seq::<Term>::empty());
                let (c, t) = self.open_binders(self.budget, m, &empty, typ, *num_params)?;
                self.check_motives(m, &c, &t, *num_motives, rec)
            },
            _ => Ok(()),
        }
    }

    fn check_elimination(&self, m: Mode, all: &Vec<u32>, first: u32) -> (r: R<()>)
        ensures
            res(r) == elimination_ok(self@, sem_at(self@, self.budget), m, all@, first),
    {
        proof {
            reveal(elimination_ok);
        }
        let ghost s = sem_at(self@, self.budget);
        if all.len() == 0 || all[0] != first {
            return Ok(());
        }
        if !self.elim_only_at_universe_zero(m, all)? {
            return Ok(());
        }
        let recs = self.find_group_recursors(all);
        let mut i: usize = 0;
        while i < recs.len()
            invariant
                i <= recs.len(),
                s == sem_at(self@, self.budget),
                recs_small(self@, s, m, recs@, i as nat) == elimination_ok(
                    self@,
                    s,
                    m,
                    all@,
                    first,
                ),
            decreases recs.len() - i,
        {
            self.check_rec_small(m, recs[i])?;
            i = i + 1;
        }
        Ok(())
    }

    fn check_group(&self, m: Mode, sh: &SharedParts, first: u32) -> (r: R<()>)
        requires
            sh.num_params <= sh.params@.len(),
            sh.bound.num_params == sh.num_params,
        ensures
            res(r) == group_ok(self@, sem_at(self@, self.budget), m, sh@, first),
    {
        proof {
            reveal(group_ok);
        }
        let shapes = self.check_type_shapes(m, sh)?;
        self.check_all_ctors(m, sh, &shapes)?;
        self.check_elimination(m, &sh.bound.names, first)
    }

    /// Whether the group of an inductive type is well formed.
    pub fn check_inductive_group(&self, first_name: u32) -> (r: R<()>)
        ensures
            res(r) == inductive_group_spec(
                self@,
                sem_at(self@, self.budget),
                start_mode(),
                first_name,
            ),
    {
        proof {
            reveal(inductive_group_spec);
        }
        let m = Mode::start();
        let (typ, np, all, lps) = match self.env.get(first_name) {
            None => {
                return other("missing inductive");
            },
            Some(ConstantInfo::InductiveType { typ, num_params, all, level_params, .. }) => (
                typ,
                *num_params,
                all,
                level_params,
            ),
            Some(_) => {
                return Ok(());
            },
        };
        if has_repeats(lps) {
            return reject("inductive type: duplicate universe parameter");
        }
        let empty = Ctx::new();
        assert(empty@ =~= Seq::<Term>::empty());
        let (params, _) = self.open_binders(self.budget, m, &empty, typ, np)?;
        proof {
            lemma_open_count(
                self@,
                sem_at(self@, self.budget),
                m,
                empty@,
                typ@,
                np as nat,
            );
        }
        let names = all.clone();
        let level_params = lps.clone();
        assert(names@ =~= all@);
        assert(level_params@ =~= lps@);
        let sh = SharedParts {
            num_params: np,
            params,
            level_params,
            bound: Bound { names, num_params: np },
        };
        self.check_group(m, &sh, first_name)
    }
}

pub(crate) proof fn lemma_open_count(k: K, s: Sem, m: Mode, ctx: Seq<Term>, t: Term, n: nat)
    ensures
        open_spec(k, s, m, ctx, t, n) matches Ok(r) ==> r.0.len() == ctx.len() + n,
    decreases n,
{
    if n > 0 {
        match ensure_pi_spec(k, s, m, ctx, t) {
            Err(_) => {},
            Ok((_, dom, body)) => lemma_open_count(
                k,
                s,
                m,
                ctx.push(dom),
                body,
                (n - 1) as nat,
            ),
        }
    }
}

pub(crate) proof fn lemma_open_split(k: K, s: Sem, m: Mode, ctx: Seq<Term>, t: Term, a: nat, b: nat)
    ensures
        open_spec(k, s, m, ctx, t, a + b) == (match open_spec(k, s, m, ctx, t, a) {
            Err(f) => Err(f),
            Ok((c, u)) => open_spec(k, s, m, c, u, b),
        }),
    decreases a,
{
    if a > 0 {
        match ensure_pi_spec(k, s, m, ctx, t) {
            Err(_) => {},
            Ok((_, dom, body)) => lemma_open_split(
                k,
                s,
                m,
                ctx.push(dom),
                body,
                (a - 1) as nat,
                b,
            ),
        }
    }
}

} // verus!
