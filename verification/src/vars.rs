use vstd::prelude::*;
use crate::expression::{Expression, SpecExpr, lemma_models_index, lemma_models_len, models};
use crate::table::Table;

verus! {

/// A variable: read-only ones are loaded from outside, read-write ones are
/// declared by programs.
#[derive(Debug)]
pub enum Variable {
    ReadOnly(Expression),
    ReadWrite(Expression),
}

/// The model of a variable.
pub enum SpecVariable {
    ReadOnly(SpecExpr),
    ReadWrite(SpecExpr),
}

impl View for Variable {
    type V = SpecVariable;

    open spec fn view(&self) -> SpecVariable {
        match self {
            Variable::ReadOnly(e) => SpecVariable::ReadOnly(e@),
            Variable::ReadWrite(e) => SpecVariable::ReadWrite(e@),
        }
    }
}

impl Variable {
    /// A copy of the variable's expression.
    fn expr(&self) -> (r: Expression)
        ensures
            r@ == var_expr(self@),
    {
        match self {
            Variable::ReadOnly(expr) | Variable::ReadWrite(expr) => expr.copy(),
        }
    }
}

/// The expression a variable holds.
pub open spec fn var_expr(v: SpecVariable) -> SpecExpr {
    match v {
        SpecVariable::ReadOnly(e) => e,
        SpecVariable::ReadWrite(e) => e,
    }
}

/// The variables of a context: a map from names to variables.
pub type VarMap = Map<Seq<char>, SpecVariable>;

/// A program may change the variable `key` unless it is read-only.
pub open spec fn can_write(vars: VarMap, key: Seq<char>) -> bool {
    !(vars.contains_key(key) && vars[key] is ReadOnly)
}

/// The value of the variable `key`, or `Null` when there is none.
pub open spec fn var_value(vars: VarMap, key: Seq<char>) -> SpecExpr {
    if vars.contains_key(key) { var_expr(vars[key]) } else { SpecExpr::Null }
}

/// Declaring `key` with `value` sets a read-write variable, unless `key`
/// is read-only.
pub open spec fn declare(vars: VarMap, key: Seq<char>, value: SpecExpr) -> VarMap {
    if can_write(vars, key) { vars.insert(key, SpecVariable::ReadWrite(value)) } else { vars }
}

/// Removes `key`, unless it is read-only.
pub open spec fn undeclare(vars: VarMap, key: Seq<char>) -> VarMap {
    if can_write(vars, key) { vars.remove(key) } else { vars }
}

/// `e` with the element at the path `keys[i..]` of nested arrays replaced by
/// `v`; `None` when the path leads out of an array.
pub open spec fn set_path(e: SpecExpr, keys: Seq<i64>, i: int, v: SpecExpr) -> Option<SpecExpr>
    decreases keys.len() - i,
{
    if !(0 <= i < keys.len()) {
        Some(v)
    } else {
        match e {
            SpecExpr::Array(items) => {
                let k = keys[i] as int;
                if 0 <= k < items.len() {
                    match set_path(items[k], keys, i + 1, v) {
                        Some(x) => Some(SpecExpr::Array(items.update(k, x))),
                        None => None,
                    }
                } else {
                    None
                }
            },
            _ => None,
        }
    }
}

/// Assigning `v` to the place `key[keys[0]]...[keys[n-1]]`: it takes effect
/// only where `key` is a read-write variable and the path leads to an
/// element.
pub open spec fn assign(vars: VarMap, key: Seq<char>, keys: Seq<i64>, v: SpecExpr) -> VarMap {
    if vars.contains_key(key) && vars[key] is ReadWrite {
        match set_path(var_expr(vars[key]), keys, 0, v) {
            Some(x) => vars.insert(key, SpecVariable::ReadWrite(x)),
            None => vars,
        }
    } else {
        vars
    }
}

pub proof fn lemma_set_path_some(e: SpecExpr, keys: Seq<i64>, i: int, v: SpecExpr, w: SpecExpr)
    ensures
        set_path(e, keys, i, v) is Some == set_path(e, keys, i, w) is Some,
    decreases keys.len() - i,
{
    if 0 <= i < keys.len() {
        if let SpecExpr::Array(items) = e {
            let k = keys[i] as int;
            if 0 <= k < items.len() {
                lemma_set_path_some(items[k], keys, i + 1, v, w);
            }
        }
    }
}

/// The variables of a context.
pub struct Variables {
    inner: Table<Variable>,
}

impl Variables {
    pub closed spec fn wf(&self) -> bool {
        self.inner.wf()
    }

    pub closed spec fn view(&self) -> VarMap {
        self.inner.view()
    }

    pub fn empty() -> (r: Self)
        ensures
            r.wf(),
            r@ == VarMap::empty(),
    {
        Self { inner: Table::new() }
    }

    fn can_write(&self, key: &String) -> (r: bool)
        requires
            self.wf(),
        ensures
            r == can_write(self@, key@),
    {
        match self.inner.get(key) {
            Some(Variable::ReadOnly(_)) => false,
            _ => true,
        }
    }

    /// A copy of the value of `ident`, or `Null`.
    pub fn get(&self, ident: &String) -> (r: Expression)
        requires
            self.wf(),
        ensures
            r@ == var_value(self@, ident@),
    {
        match self.inner.get(ident) {
            Some(var) => var.expr(),
            None => Expression::Null,
        }
    }

    /// Declares `ident` with `value`, unless it is read-only.
    pub fn push(&mut self, ident: String, value: Expression)
        requires
            old(self).wf(),
        ensures
            final(self).wf(),
            final(self)@ == declare(old(self)@, ident@, value@),
    {
        if !self.can_write(&ident) {
            return;
        }
        let value = Variable::ReadWrite(value);
        self.inner.insert(ident, value);
    }

    /// Removes `ident`, unless it is read-only.
    pub fn remove(&mut self, ident: &String)
        requires
            old(self).wf(),
        ensures
            final(self).wf(),
            final(self)@ == undeclare(old(self)@, ident@),
    {
        if !self.can_write(ident) {
            assert(self@ =~= undeclare(old(self)@, ident@));
            return;
        }
        self.inner.remove(ident);
    }

    /// Loads the read-only variable `key`, whose value is the source text `value`.
    pub fn insert_ro(&mut self, key: String, value: String)
        requires
            old(self).wf(),
        ensures
            final(self).wf(),
            final(self)@ == old(self)@.insert(key@, SpecVariable::ReadOnly(SpecExpr::Deferred(value@))),
    {
        self.inner.insert(key, Variable::ReadOnly(Expression::Deferred(value)));
    }

    /// Stores `value` at the place `ident[keys[0]]...[keys[n-1]]`, where that
    /// is an element of a read-write variable.
    pub fn assign(&mut self, ident: &String, keys: &Vec<i64>, value: Expression)
        requires
            old(self).wf(),
        ensures
            final(self).wf(),
            final(self)@ == assign(old(self)@, ident@, keys@, value@),
    {
        let ok = match self.inner.get(ident) {
            Some(Variable::ReadWrite(e)) => path_ok(e, keys, 0),
            _ => false,
        };
        if !ok {
            proof {
                if self@.contains_key(ident@) && self@[ident@] is ReadWrite {
                    lemma_set_path_some(var_expr(self@[ident@]), keys@, 0, SpecExpr::Null, value@);
                }
            }
            return;
        }
        proof { lemma_set_path_some(var_expr(self@[ident@]), keys@, 0, SpecExpr::Null, value@); }
        let mut slot = Variable::ReadWrite(Expression::Null);
        self.inner.swap_value(ident, &mut slot);
        let e = match slot {
            Variable::ReadWrite(e) => e,
            Variable::ReadOnly(e) => e,
        };
        let updated = set_path_exec(e, keys, 0, value);
        let mut slot2 = Variable::ReadWrite(updated);
        self.inner.swap_value(ident, &mut slot2);
        assert(self@ =~= assign(old(self)@, ident@, keys@, value@));
    }
}

/// Whether the path `keys[i..]` leads to an element of nested arrays in `e`.
fn path_ok(e: &Expression, keys: &Vec<i64>, i: usize) -> (r: bool)
    requires
        i <= keys@.len(),
    ensures
        r == set_path(e@, keys@, i as int, SpecExpr::Null) is Some,
    decreases keys@.len() - i,
{
    if i == keys.len() {
        return true;
    }
    match e {
        Expression::Array(items) => {
            let k = keys[i];
            let len = items.len();
            proof { lemma_models_len(items@); }
            if k < 0 || (k as u64) >= (len as u64) {
                return false;
            }
            let idx = k as usize;
            assert(idx as int == k as int);
            proof { lemma_models_index(items@, k as int); }
            path_ok(&items[idx], keys, i + 1)
        },
        _ => false,
    }
}

/// `e` with the element at the path `keys[i..]` replaced by `v`.
fn set_path_exec(e: Expression, keys: &Vec<i64>, i: usize, v: Expression) -> (r: Expression)
    requires
        i <= keys@.len(),
        set_path(e@, keys@, i as int, v@) is Some,
    ensures
        set_path(e@, keys@, i as int, v@) == Some(r@),
    decreases keys@.len() - i,
{
    if i == keys.len() {
        return v;
    }
    match e {
        Expression::Array(items) => {
            let mut items = items;
            proof { lemma_models_len(items@); }
            assert(e@ == SpecExpr::Array(models(items@)));
            assert(0 <= keys@[i as int] < items@.len());
            let len = items.len();
            let k = keys[i] as usize;
            assert(k as int == keys@[i as int] as int);
            proof { lemma_models_index(items@, k as int); }
            let ghost before = items@;
            let mut elem = Expression::Null;
            std::mem::swap(&mut elem, &mut items[k]);
            let new_elem = set_path_exec(elem, keys, i + 1, v);
            items[k] = new_elem;
            proof {
                lemma_models_len(items@);
                assert forall|j: int| 0 <= j < items@.len() implies models(items@)[j] == models(before).update(k as int, new_elem@)[j] by {
                    lemma_models_index(items@, j);
                    lemma_models_index(before, j);
                }
                assert(models(items@) =~= models(before).update(k as int, new_elem@));
            }
            Expression::Array(items)
        },
        _ => e,
    }
}

} // verus!
