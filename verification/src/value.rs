//! Values: terms evaluated in environments, with evaluation of arguments put
//! off.

use crate::expr::{BinderInfo, Expr, Lit, LitT, Term};
use crate::level::{Level, Univ};
use std::rc::Rc;
use vstd::prelude::*;

verus! {

/// A value: what a term shows once it is evaluated.
pub enum Value {
    Sort(Level),
    Lit(Lit),
    Lam(BinderInfo, Rc<Thunk>, VEnv, Expr),
    Pi(BinderInfo, Rc<Thunk>, VEnv, Expr),
    Neutral(Neutral),
}

/// A value that may be still to be computed.
pub enum Thunk {
    Deferred(VEnv, Expr),
    Forced(Rc<Value>),
}

/// A value that no rule applies to.
pub enum Neutral {
    Var(u32),
    Const(u32, Rc<Vec<Level>>),
    App(Rc<Neutral>, Rc<Thunk>),
    Proj(u32, u32, Rc<Neutral>),
}

/// The values of the variables, the innermost last.
pub enum VEnv {
    Empty,
    Bind(Rc<VEnv>, Rc<Thunk>),
}

/// The mathematical reading of a [`Value`].
pub enum Val {
    Sort(Univ),
    Lit(LitT),
    Lam(BinderInfo, Box<Thk>, Seq<Thk>, Term),
    Pi(BinderInfo, Box<Thk>, Seq<Thk>, Term),
    Neutral(Neu),
}

/// The mathematical reading of a [`Thunk`].
pub enum Thk {
    Deferred(Seq<Thk>, Term),
    Forced(Box<Val>),
}

/// The mathematical reading of a [`Neutral`].
pub enum Neu {
    Var(u32),
    Const(u32, Seq<Univ>),
    App(Box<Neu>, Box<Thk>),
    Proj(u32, u32, Box<Neu>),
}

impl Value {
    /// The mathematical reading.
    pub open spec fn model(self) -> Val
        decreases self,
    {
        match self {
            Value::Sort(l) => Val::Sort(l@),
            Value::Lit(l) => Val::Lit(l@),
            Value::Lam(bi, t, env, b) => Val::Lam(bi, Box::new((*t).model()), env.model(), b@),
            Value::Pi(bi, t, env, b) => Val::Pi(bi, Box::new((*t).model()), env.model(), b@),
            Value::Neutral(n) => Val::Neutral(n.model()),
        }
    }
}

impl Thunk {
    /// The mathematical reading.
    pub open spec fn model(self) -> Thk
        decreases self,
    {
        match self {
            Thunk::Deferred(env, e) => Thk::Deferred(env.model(), e@),
            Thunk::Forced(v) => Thk::Forced(Box::new((*v).model())),
        }
    }
}

impl Neutral {
    /// The mathematical reading.
    pub open spec fn model(self) -> Neu
        decreases self,
    {
        match self {
            Neutral::Var(l) => Neu::Var(l),
            Neutral::Const(n, us) => Neu::Const(n, (*us).deep_view()),
            Neutral::App(f, a) => Neu::App(Box::new((*f).model()), Box::new((*a).model())),
            Neutral::Proj(s, i, v) => Neu::Proj(s, i, Box::new((*v).model())),
        }
    }
}

impl VEnv {
    /// The mathematical reading.
    pub open spec fn model(self) -> Seq<Thk>
        decreases self,
    {
        match self {
            VEnv::Empty => Seq::empty(),
            VEnv::Bind(rest, t) => (*rest).model().push((*t).model()),
        }
    }
}

impl View for Value {
    type V = Val;

    open spec fn view(&self) -> Val {
        self.model()
    }
}

impl DeepView for Value {
    type V = Val;

    open spec fn deep_view(&self) -> Val {
        self.model()
    }
}

impl View for Thunk {
    type V = Thk;

    open spec fn view(&self) -> Thk {
        self.model()
    }
}

impl DeepView for Thunk {
    type V = Thk;

    open spec fn deep_view(&self) -> Thk {
        self.model()
    }
}

impl View for Neutral {
    type V = Neu;

    open spec fn view(&self) -> Neu {
        self.model()
    }
}

impl View for VEnv {
    type V = Seq<Thk>;

    open spec fn view(&self) -> Seq<Thk> {
        self.model()
    }
}

impl Value {
    /// Another handle on the value.
    pub fn copy(&self) -> (r: Value)
        ensures
            r@ == self@,
    {
        match self {
            Value::Sort(l) => Value::Sort(l.clone()),
            Value::Lit(l) => Value::Lit(l.clone()),
            Value::Lam(bi, t, env, b) => Value::Lam(*bi, t.clone(), env.copy(), b.clone()),
            Value::Pi(bi, t, env, b) => Value::Pi(*bi, t.clone(), env.copy(), b.clone()),
            Value::Neutral(n) => Value::Neutral(n.copy()),
        }
    }
}

impl Neutral {
    /// Another handle on the value.
    pub fn copy(&self) -> (r: Neutral)
        ensures
            r@ == self@,
    {
        match self {
            Neutral::Var(l) => Neutral::Var(*l),
            Neutral::Const(n, us) => Neutral::Const(*n, us.clone()),
            Neutral::App(f, a) => Neutral::App(f.clone(), a.clone()),
            Neutral::Proj(s, i, v) => Neutral::Proj(*s, *i, v.clone()),
        }
    }
}

impl VEnv {
    /// Another handle on the environment.
    pub fn copy(&self) -> (r: VEnv)
        ensures
            r@ == self@,
    {
        match self {
            VEnv::Empty => VEnv::Empty,
            VEnv::Bind(rest, t) => VEnv::Bind(rest.clone(), t.clone()),
        }
    }

    /// The environment without variables.
    pub fn empty() -> (r: VEnv)
        ensures
            r@ == Seq::<Thk>::empty(),
    {
        VEnv::Empty
    }

    /// The environment with one more variable.
    pub fn bind(&self, t: Rc<Thunk>) -> (r: VEnv)
        ensures
            r@ == self@.push((*t)@),
    {
        VEnv::Bind(Rc::new(self.copy()), t)
    }

    /// The value of a variable, counted from the innermost.
    pub fn at(&self, i: u32) -> (r: Option<&Rc<Thunk>>)
        ensures
            match r {
                Some(t) => i < self@.len() && (**t)@ == self@[self@.len() - 1 - i],
                None => i >= self@.len(),
            },
    {
        let mut cur = self;
        let mut left: u32 = i;
        loop
            invariant
                left <= i,
                self@.len() - i == cur@.len() - left,
                forall|j: int| 0 <= j < cur@.len() ==> self@[j] == cur@[j],
            decreases left,
        {
            match cur {
                VEnv::Empty => {
                    return None;
                },
                VEnv::Bind(rest, t) => {
                    assert(cur@ == (**rest)@.push((**t)@));
                    if left == 0 {
                        assert(cur@[cur@.len() - 1] == (**t)@);
                        return Some(t);
                    }
                    cur = rest;
                    left = left - 1;
                },
            }
        }
    }
}

} // verus!
