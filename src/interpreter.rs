use vstd::prelude::*;
use vstd::string::StringExecFns;
use crate::lexer::{chars_of, parse_i64, parse_integer};
use crate::parser::{lemma_sizes_positive, expr_size, exprs_size, stmt_size, stmts_size, Expression, Parameter, Program, SExpr, SParam, SStmt, Statement, copy_parameters, copy_statements, exprs_model, lemma_call_model, lemma_statement_model, params_model, stmts_model};
use crate::typechecker::{STypeError, TEnv, check_expr};
use crate::scope::{Scope, chain_assign, lemma_chain_assign_at, lemma_chain_assign_none, chain_define, chain_lookup, scope_lookup, str_eq};

verus! {

broadcast use vstd::std_specs::vec::group_vec_axioms;

/// A runtime value. A function value holds its parameters and body by value.
#[derive(Debug)]
pub enum Value {
    String(String),
    Integer(i64),
    Boolean(bool),
    Null,
    Function { name: String, parameters: Vec<Parameter>, body: Vec<Statement> },
}

pub ghost enum SValue {
    String(Seq<char>),
    Integer(i64),
    Boolean(bool),
    Null,
    Function(Seq<char>, Seq<SParam>, Seq<SStmt>),
}

impl Value {
    /// The value's mathematical model.
    pub open spec fn model(&self) -> SValue {
        match self {
            Value::String(s) => SValue::String(s@),
            Value::Integer(i) => SValue::Integer(*i),
            Value::Boolean(b) => SValue::Boolean(*b),
            Value::Null => SValue::Null,
            Value::Function { name, parameters, body } => SValue::Function(
                name@,
                params_model(parameters@),
                stmts_model(body@),
            ),
        }
    }

    /// A deep copy of the value, equal in its model.
    pub fn copy(&self) -> (r: Value)
        ensures
            r.model() == self.model(),
    {
        match self {
            Value::String(s) => Value::String(s.clone()),
            Value::Integer(i) => Value::Integer(*i),
            Value::Boolean(b) => Value::Boolean(*b),
            Value::Null => Value::Null,
            Value::Function { name, parameters, body } => Value::Function {
                name: name.clone(),
                parameters: copy_parameters(parameters),
                body: copy_statements(body),
            },
        }
    }
}

/// The decimal digit `d` as text.
pub open spec fn digit_text(d: nat) -> Seq<char> {
    if d == 0 {
        "0"@
    } else if d == 1 {
        "1"@
    } else if d == 2 {
        "2"@
    } else if d == 3 {
        "3"@
    } else if d == 4 {
        "4"@
    } else if d == 5 {
        "5"@
    } else if d == 6 {
        "6"@
    } else if d == 7 {
        "7"@
    } else if d == 8 {
        "8"@
    } else {
        "9"@
    }
}

/// A natural number in decimal, without leading zeros.
pub open spec fn nat_text(n: nat) -> Seq<char>
    decreases n,
{
    if n < 10 {
        digit_text(n)
    } else {
        nat_text(n / 10) + digit_text(n % 10)
    }
}

/// An integer in decimal, with a leading `-` when negative.
pub open spec fn int_text(i: int) -> Seq<char> {
    if i < 0 {
        "-"@ + nat_text((-i) as nat)
    } else {
        nat_text(i as nat)
    }
}

/// How `print` writes a value: a string as it is, an integer in decimal, a
/// boolean as `true` or `false`, null as `null`, a function as `<function name>`.
pub open spec fn value_text(v: SValue) -> Seq<char> {
    match v {
        SValue::String(s) => s,
        SValue::Integer(i) => int_text(i as int),
        SValue::Boolean(b) => if b {
            "true"@
        } else {
            "false"@
        },
        SValue::Null => "null"@,
        SValue::Function(name, _, _) => "<function "@ + name + ">"@,
    }
}

fn digit_string(d: u64) -> (r: String)
    requires
        d < 10,
    ensures
        r@ == digit_text(d as nat),
{
    if d == 0 {
        "0".to_owned()
    } else if d == 1 {
        "1".to_owned()
    } else if d == 2 {
        "2".to_owned()
    } else if d == 3 {
        "3".to_owned()
    } else if d == 4 {
        "4".to_owned()
    } else if d == 5 {
        "5".to_owned()
    } else if d == 6 {
        "6".to_owned()
    } else if d == 7 {
        "7".to_owned()
    } else if d == 8 {
        "8".to_owned()
    } else {
        "9".to_owned()
    }
}

fn nat_string(n: u64) -> (r: String)
    ensures
        r@ == nat_text(n as nat),
    decreases n,
{
    if n < 10 {
        digit_string(n)
    } else {
        let high = nat_string(n / 10);
        let low = digit_string(n % 10);
        high.concat(low.as_str())
    }
}

/// An integer in decimal.
pub fn int_string(i: i64) -> (r: String)
    ensures
        r@ == int_text(i as int),
{
    if i < 0 {
        let magnitude = (0 - (i as i128)) as u64;
        "-".to_owned().concat(nat_string(magnitude).as_str())
    } else {
        nat_string(i as u64)
    }
}

impl Value {
    /// The text that `print` writes for this value.
    pub fn display(&self) -> (r: String)
        ensures
            r@ == value_text(self.model()),
    {
        match self {
            Value::String(s) => s.clone(),
            Value::Integer(i) => int_string(*i),
            Value::Boolean(b) => if *b {
                "true".to_owned()
            } else {
                "false".to_owned()
            },
            Value::Null => "null".to_owned(),
            Value::Function { name, .. } => "<function ".to_owned().concat(name.as_str()).concat(">"),
        }
    }
}

pub open spec fn values_model(v: Seq<Value>) -> Seq<SValue> {
    v.map_values(|x: Value| x.model())
}

/// Truthiness: a boolean by its value, null false, an integer iff nonzero,
/// a string iff non-empty, a function always.
pub open spec fn truthy(v: SValue) -> bool {
    match v {
        SValue::Boolean(b) => b,
        SValue::Null => false,
        SValue::Integer(i) => i != 0,
        SValue::String(s) => s.len() > 0,
        SValue::Function(..) => true,
    }
}

/// Equality for `is`: like variants with equal contents; values of different
/// variants, and functions, are never equal.
pub open spec fn values_equal(a: SValue, b: SValue) -> bool {
    match (a, b) {
        (SValue::String(x), SValue::String(y)) => x == y,
        (SValue::Integer(x), SValue::Integer(y)) => x == y,
        (SValue::Boolean(x), SValue::Boolean(y)) => x == y,
        (SValue::Null, SValue::Null) => true,
        _ => false,
    }
}

/// A runtime error.
#[derive(Debug)]
pub enum RuntimeError {
    UndefinedVariable(String),
    UndefinedFunction(String),
    ArityMismatch { expected: usize, actual: usize },
    NotAFunction(String),
    CannotConvert(String),
    TypeMismatch { expected: String, actual: Value },
    UnknownOperator(String),
    /// More nested calls of user functions than the run can track.
    CallDepthExceeded,
}

pub ghost enum SRuntimeError {
    UndefinedVariable(Seq<char>),
    UndefinedFunction(Seq<char>),
    ArityMismatch(nat, nat),
    NotAFunction(Seq<char>),
    CannotConvert(Seq<char>),
    TypeMismatch(Seq<char>, SValue),
    UnknownOperator(Seq<char>),
    CallDepthExceeded,
}

impl RuntimeError {
    pub open spec fn model(&self) -> SRuntimeError {
        match self {
            RuntimeError::UndefinedVariable(n) => SRuntimeError::UndefinedVariable(n@),
            RuntimeError::UndefinedFunction(n) => SRuntimeError::UndefinedFunction(n@),
            RuntimeError::ArityMismatch { expected, actual } => SRuntimeError::ArityMismatch(
                *expected as nat,
                *actual as nat,
            ),
            RuntimeError::NotAFunction(n) => SRuntimeError::NotAFunction(n@),
            RuntimeError::CannotConvert(t) => SRuntimeError::CannotConvert(t@),
            RuntimeError::TypeMismatch { expected, actual } => SRuntimeError::TypeMismatch(
                expected@,
                actual.model(),
            ),
            RuntimeError::UnknownOperator(op) => SRuntimeError::UnknownOperator(op@),
            RuntimeError::CallDepthExceeded => SRuntimeError::CallDepthExceeded,
        }
    }
}

/// The model of a runtime environment: its scopes, the innermost last.
pub type REnv = Seq<Scope<SValue>>;

/// The root scope: the built-in `print`, a function value named `print`.
pub open spec fn builtin_values() -> REnv {
    seq![seq![("print"@, SValue::Function("print"@, Seq::empty(), Seq::empty()))]]
}

/// A scope binding each parameter to the argument value at its position.
pub open spec fn bind_params(ps: Seq<SParam>, vals: Seq<SValue>) -> Scope<SValue> {
    Seq::new(ps.len(), |i: int| (ps[i].name, vals[i]))
}

/// The value of a typed-value construct whose inner expression is a bare identifier:
/// a literal built from the identifier's text, for the tags `String` and `Integer`.
pub open spec fn literal_of(tag: Seq<char>, text: Seq<char>) -> Option<Result<SValue, SRuntimeError>> {
    if tag == "String"@ {
        Some(Ok(SValue::String(text)))
    } else if tag == "Integer"@ {
        match parse_i64(text) {
            Some(i) => Some(Ok(SValue::Integer(i))),
            None => Some(Err(SRuntimeError::CannotConvert(text))),
        }
    } else {
        None
    }
}

/// Whether a value's variant is the one that a type tag names.
pub open spec fn tag_admits(tag: Seq<char>, v: SValue) -> bool {
    (tag == "String"@ && v is String) || (tag == "Integer"@ && v is Integer)
}

/// What evaluating an expression gives, and the output after it. `depth` bounds
/// the nesting of calls of user functions.
pub open spec fn eval(env: REnv, e: SExpr, out: Seq<SValue>, depth: nat) -> (Result<SValue, SRuntimeError>, Seq<SValue>)
    decreases depth, expr_size(e), 0int,
{
    match e {
        SExpr::StringLiteral(s) => (Ok(SValue::String(s)), out),
        SExpr::IntegerLiteral(i) => (Ok(SValue::Integer(i)), out),
        SExpr::Identifier(n) => match chain_lookup(env, n) {
            Some(v) => (Ok(v), out),
            None => (Err(SRuntimeError::UndefinedVariable(n)), out),
        },
        SExpr::FunctionCall(n, args) => match chain_lookup(env, n) {
            None => (Err(SRuntimeError::UndefinedFunction(n)), out),
            Some(SValue::Function(fname, ps, body)) => {
                if fname == "print"@ {
                    match eval_args(env, args, 0, out, depth) {
                        (Err(err), o) => (Err(err), o),
                        (Ok(vals), o) => (Ok(SValue::Null), o + vals),
                    }
                } else if args.len() != ps.len() {
                    (Err(SRuntimeError::ArityMismatch(ps.len(), args.len())), out)
                } else {
                    match eval_args(env, args, 0, out, depth) {
                        (Err(err), o) => (Err(err), o),
                        (Ok(vals), o) => {
                            if depth == 0 {
                                (Err(SRuntimeError::CallDepthExceeded), o)
                            } else {
                                match exec_block(
                                    env.push(bind_params(ps, vals)),
                                    body,
                                    0,
                                    SValue::Null,
                                    o,
                                    (depth - 1) as nat,
                                ) {
                                    (Err(err), o2) => (Err(err), o2),
                                    (Ok((v, _)), o2) => (Ok(v), o2),
                                }
                            }
                        },
                    }
                }
            },
            Some(_) => (Err(SRuntimeError::NotAFunction(n)), out),
        },
        SExpr::TypedValue(tag, v) => {
            if *v is Identifier && literal_of(tag, (*v)->Identifier_0) is Some {
                (literal_of(tag, (*v)->Identifier_0)->0, out)
            } else {
                match eval(env, *v, out, depth) {
                    (Err(err), o) => (Err(err), o),
                    (Ok(val), o) => {
                        if tag_admits(tag, val) {
                            (Ok(val), o)
                        } else {
                            (Err(SRuntimeError::TypeMismatch(tag, val)), o)
                        }
                    },
                }
            }
        },
        SExpr::BinaryOperation(l, op, r) => match eval(env, *l, out, depth) {
            (Err(err), o) => (Err(err), o),
            (Ok(lv), o) => match eval(env, *r, o, depth) {
                (Err(err), o2) => (Err(err), o2),
                (Ok(rv), o2) => {
                    if op == "is"@ {
                        (Ok(SValue::Boolean(values_equal(lv, rv))), o2)
                    } else if op == "is not"@ {
                        (Ok(SValue::Boolean(!values_equal(lv, rv))), o2)
                    } else {
                        (Err(SRuntimeError::UnknownOperator(op)), o2)
                    }
                },
            },
        },
    }
}

/// Evaluates `args[i..]` left to right: their values, or the first error.
pub open spec fn eval_args(env: REnv, args: Seq<SExpr>, i: int, out: Seq<SValue>, depth: nat) -> (Result<Seq<SValue>, SRuntimeError>, Seq<SValue>)
    decreases depth, exprs_size(args, i), 1int,
    via eval_args_decreases
{
    if i < 0 || i >= args.len() {
        (Ok(Seq::empty()), out)
    } else {
        match eval(env, args[i], out, depth) {
            (Err(err), o) => (Err(err), o),
            (Ok(v), o) => match eval_args(env, args, i + 1, o, depth) {
                (Err(err), o2) => (Err(err), o2),
                (Ok(rest), o2) => (Ok(seq![v] + rest), o2),
            },
        }
    }
}

#[via_fn]
proof fn eval_args_decreases(env: REnv, args: Seq<SExpr>, i: int, out: Seq<SValue>, depth: nat) {
    if 0 <= i < args.len() {
        assert(expr_size(args[i]) >= 1);
    }
}

/// Executes a statement: its value and the environment after it, or the error.
pub open spec fn exec_stmt(env: REnv, s: SStmt, out: Seq<SValue>, depth: nat) -> (Result<(SValue, REnv), SRuntimeError>, Seq<SValue>)
    decreases depth, stmt_size(s), 0int,
{
    match s {
        SStmt::Expr(e) => match eval(env, e, out, depth) {
            (Err(err), o) => (Err(err), o),
            (Ok(v), o) => (Ok((v, env)), o),
        },
        SStmt::FunctionDeclaration(name, ps, body) => (
            Ok((SValue::Null, chain_define(env, name, SValue::Function(name, ps, body)))),
            out,
        ),
        SStmt::IfStatement(c, body) => match eval(env, c, out, depth) {
            (Err(err), o) => (Err(err), o),
            (Ok(cv), o) => {
                if truthy(cv) {
                    exec_block(env, body, 0, SValue::Null, o, depth)
                } else {
                    (Ok((SValue::Null, env)), o)
                }
            },
        },
        SStmt::Comment(_) => (Ok((SValue::Null, env)), out),
    }
}

/// Executes `ss[i..]` in order: the value of the last one executed (else `last`)
/// and the environment after them, or the first error.
pub open spec fn exec_block(env: REnv, ss: Seq<SStmt>, i: int, last: SValue, out: Seq<SValue>, depth: nat) -> (Result<(SValue, REnv), SRuntimeError>, Seq<SValue>)
    decreases depth, stmts_size(ss, i), 1int,
    via exec_block_decreases
{
    if i < 0 || i >= ss.len() {
        (Ok((last, env)), out)
    } else {
        match exec_stmt(env, ss[i], out, depth) {
            (Err(err), o) => (Err(err), o),
            (Ok((v, env2)), o) => exec_block(env2, ss, i + 1, v, o, depth),
        }
    }
}

#[via_fn]
proof fn exec_block_decreases(env: REnv, ss: Seq<SStmt>, i: int, last: SValue, out: Seq<SValue>, depth: nat) {
    if 0 <= i < ss.len() {
        assert(stmt_size(ss[i]) >= 1);
    }
}

pub open spec fn value_scope_model(sc: Seq<(String, Value)>) -> Scope<SValue> {
    sc.map_values(|b: (String, Value)| (b.0@, b.1.model()))
}

/// Name-to-value bindings in a chain of scopes.
pub struct Environment {
    scopes: Vec<Vec<(String, Value)>>,
}

impl Environment {
    /// The environment's model: its scopes, the innermost last.
    pub closed spec fn model(&self) -> REnv {
        self.scopes@.map_values(|sc: Vec<(String, Value)>| value_scope_model(sc@))
    }

    /// The root scope, holding the built-in `print`.
    pub fn new() -> (r: Environment)
        ensures
            r.model() == builtin_values(),
    {
        let mut env = Environment { scopes: Vec::new() };
        let print = Value::Function {
            name: "print".to_owned(),
            parameters: Vec::new(),
            body: Vec::new(),
        };
        let ghost pm = print.model();
        assert(pm == SValue::Function("print"@, Seq::empty(), Seq::empty())) by {
            assert(params_model(Seq::<Parameter>::empty()) =~= Seq::empty());
            assert(stmts_model(Seq::<Statement>::empty()) =~= Seq::empty());
        }
        env.define("print".to_owned(), print);
        assert(env.model() =~~= builtin_values());
        env
    }

    /// A new, empty scope whose parent is `parent`.
    pub fn extend(parent: Environment) -> (r: Environment)
        ensures
            r.model() == parent.model().push(Seq::empty()),
    {
        let mut env = parent;
        env.enter_scope();
        env
    }

    fn enter_scope(&mut self)
        ensures
            final(self).model() == old(self).model().push(Seq::empty()),
    {
        let sc: Vec<(String, Value)> = Vec::new();
        assert(value_scope_model(sc@) =~= Seq::empty());
        self.scopes.push(sc);
        assert(self.model() =~= old(self).model().push(Seq::empty()));
    }

    /// A deep copy of the environment, equal in its model.
    pub fn copy(&self) -> (r: Environment)
        ensures
            r.model() == self.model(),
    {
        let mut scopes: Vec<Vec<(String, Value)>> = Vec::new();
        let mut i: usize = 0;
        while i < self.scopes.len()
            invariant
                i <= self.scopes.len(),
                scopes.len() == i,
                forall|k: int| 0 <= k < i ==> value_scope_model(#[trigger] scopes[k]@) == value_scope_model(self.scopes[k]@),
            decreases self.scopes.len() - i,
        {
            let sc = &self.scopes[i];
            let mut c: Vec<(String, Value)> = Vec::new();
            let mut j: usize = 0;
            while j < sc.len()
                invariant
                    j <= sc.len(),
                    c.len() == j,
                    forall|k: int| 0 <= k < j ==> (#[trigger] c[k]).0@ == sc[k].0@ && c[k].1.model() == sc[k].1.model(),
                decreases sc.len() - j,
            {
                c.push((sc[j].0.clone(), sc[j].1.copy()));
                j = j + 1;
            }
            assert(value_scope_model(c@) =~= value_scope_model(sc@));
            scopes.push(c);
            i = i + 1;
        }
        let r = Environment { scopes };
        assert(r.model() =~= self.model());
        r
    }

    /// Binds `name` to `value` in the innermost scope.
    pub fn define(&mut self, name: String, value: Value)
        ensures
            final(self).model() == chain_define(old(self).model(), name@, value.model()),
    {
        let ghost b = (name@, value.model());
        match self.scopes.pop() {
            None => {
                let mut sc: Vec<(String, Value)> = Vec::new();
                sc.push((name, value));
                self.scopes.push(sc);
                assert(value_scope_model(sc@) =~= seq![b]);
                assert(self.model() =~= chain_define(old(self).model(), b.0, b.1));
            },
            Some(last) => {
                let mut sc = last;
                let ghost before = value_scope_model(sc@);
                sc.push((name, value));
                assert(value_scope_model(sc@) =~= before.push(b));
                self.scopes.push(sc);
                assert(self.model() =~= chain_define(old(self).model(), b.0, b.1));
            },
        }
    }

    /// The value bound to `name` in the innermost scope that binds it.
    pub fn get(&self, name: &str) -> (r: Option<Value>)
        ensures
            match chain_lookup(self.model(), name@) {
                Some(v) => r is Some && r->0.model() == v,
                None => r is None,
            },
    {
        let ghost m = self.model();
        let mut i = self.scopes.len();
        assert(m.subrange(0, i as int) =~= m);
        while i > 0
            invariant
                i <= self.scopes.len(),
                m == self.model(),
                chain_lookup(m, name@) == chain_lookup(m.subrange(0, i as int), name@),
            decreases i,
        {
            let sc = &self.scopes[i - 1];
            let ghost sm = value_scope_model(sc@);
            let mut j = sc.len();
            assert(sm.subrange(0, j as int) =~= sm);
            assert(m.subrange(0, i as int).last() == sm);
            while j > 0
                invariant
                    j <= sc.len(),
                    i <= self.scopes.len(),
                    0 < i,
                    m == self.model(),
                    sc == self.scopes[i - 1],
                    m.subrange(0, i as int).last() == sm,
                    chain_lookup(m, name@) == chain_lookup(m.subrange(0, i as int), name@),
                    sm == value_scope_model(sc@),
                    scope_lookup(sm, name@) == scope_lookup(sm.subrange(0, j as int), name@),
                decreases j,
            {
                if str_eq(sc[j - 1].0.as_str(), name) {
                    assert(sm.subrange(0, j as int).last() == sm[j - 1]);
                    return Some(sc[j - 1].1.copy());
                }
                assert(sm.subrange(0, j as int).drop_last() =~= sm.subrange(0, j - 1));
                j = j - 1;
            }
            assert(sm.subrange(0, 0) =~= Seq::<(Seq<char>, SValue)>::empty());
            assert(m.subrange(0, i as int).drop_last() =~= m.subrange(0, i - 1));
            i = i - 1;
        }
        None
    }
}

impl Environment {
    /// Whether scope `k` binds `name`.
    fn binds(&self, k: usize, name: &str) -> (r: bool)
        requires
            k < self.scopes.len(),
        ensures
            r == (scope_lookup(self.model()[k as int], name@) is Some),
    {
        let sc = &self.scopes[k];
        let ghost sm = value_scope_model(sc@);
        assert(self.model()[k as int] == sm);
        let mut j = sc.len();
        assert(sm.subrange(0, j as int) =~= sm);
        while j > 0
            invariant
                j <= sc.len(),
                k < self.scopes.len(),
                self.model()[k as int] == sm,
                sm == value_scope_model(sc@),
                scope_lookup(sm, name@) == scope_lookup(sm.subrange(0, j as int), name@),
            decreases j,
        {
            if str_eq(sc[j - 1].0.as_str(), name) {
                assert(sm.subrange(0, j as int).last() == sm[j - 1]);
                return true;
            }
            assert(sm.subrange(0, j as int).drop_last() =~= sm.subrange(0, j - 1));
            j = j - 1;
        }
        assert(sm.subrange(0, 0) =~= Seq::<(Seq<char>, SValue)>::empty());
        false
    }

    /// Rebinds `name` to `value` in the innermost scope that binds it; fails where
    /// no scope of the chain binds it.
    pub fn assign(&mut self, name: &str, value: Value) -> (r: Result<(), RuntimeError>)
        ensures
            match chain_assign(old(self).model(), name@, value.model()) {
                Some(env) => r is Ok && final(self).model() == env,
                None => r is Err && r->Err_0.model() == SRuntimeError::UndefinedVariable(name@)
                    && final(self).model() == old(self).model(),
            },
    {
        let ghost m = self.model();
        let mut i = self.scopes.len();
        while i > 0
            invariant
                i <= self.scopes.len(),
                m == self.model(),
                m == old(self).model(),
                forall|j: int| i <= j < m.len() ==> scope_lookup(#[trigger] m[j], name@) is None,
            decreases i,
        {
            if self.binds(i - 1, name) {
                proof {
                    lemma_chain_assign_at(m, name@, value.model(), i - 1);
                }
                let ghost b = (name@, value.model());
                let ghost before = value_scope_model(self.scopes[i - 1]@);
                self.scopes[i - 1].push((name.to_owned(), value));
                assert(value_scope_model(self.scopes[i - 1]@) =~= before.push(b));
                assert(self.model() =~= m.update(i - 1, m[i - 1].push(b)));
                return Ok(());
            }
            i = i - 1;
        }
        proof {
            lemma_chain_assign_none(m, name@, value.model());
        }
        Err(RuntimeError::UndefinedVariable(name.to_owned()))
    }
}

/// The count of nested calls of user functions that a run can track. Nothing
/// smaller is imposed: in practice only the host's stack bounds recursion.
pub const MAX_CALL_DEPTH: usize = usize::MAX;

/// Executes programs statement by statement, collecting what `print` writes.
pub struct Interpreter {
    environment: Environment,
    output: Vec<Value>,
    max_depth: usize,
}

/// Calling a name that no scope binds fails, both in checking and in running,
/// with an error that carries the name.
pub proof fn lemma_undefined_function_fails(
    tenv: TEnv,
    env: REnv,
    name: Seq<char>,
    args: Seq<SExpr>,
    out: Seq<SValue>,
    depth: nat,
)
    requires
        chain_lookup(tenv, name) is None,
        chain_lookup(env, name) is None,
    ensures
        check_expr(tenv, SExpr::FunctionCall(name, args)) == Err::<crate::typechecker::SType, STypeError>(
            STypeError::UndefinedFunction(name),
        ),
        eval(env, SExpr::FunctionCall(name, args), out, depth) == (
            Err::<SValue, SRuntimeError>(SRuntimeError::UndefinedFunction(name)),
            out,
        ),
{
}

/// Print is chosen by the function value's name: calling any name bound to a
/// function value named `print`, whatever its parameters and body, writes the
/// arguments' values and gives null.
pub proof fn lemma_print_by_name(
    env: REnv,
    name: Seq<char>,
    args: Seq<SExpr>,
    ps: Seq<SParam>,
    body: Seq<SStmt>,
    out: Seq<SValue>,
    depth: nat,
)
    requires
        chain_lookup(env, name) == Some(SValue::Function("print"@, ps, body)),
        eval_args(env, args, 0, out, depth).0 is Ok,
    ensures
        ({
            let (vals, o) = eval_args(env, args, 0, out, depth);
            eval(env, SExpr::FunctionCall(name, args), out, depth) == (
                Ok::<SValue, SRuntimeError>(SValue::Null),
                o + vals->Ok_0,
            )
        }),
{
}

/// Scoping is dynamic: a call runs the body in a new scope, holding the
/// parameters, whose parent is the caller's environment at the time of the
/// call, not the one where the function was declared.
pub proof fn lemma_call_scope_is_dynamic(
    env: REnv,
    name: Seq<char>,
    args: Seq<SExpr>,
    fname: Seq<char>,
    ps: Seq<SParam>,
    body: Seq<SStmt>,
    out: Seq<SValue>,
    depth: nat,
)
    requires
        chain_lookup(env, name) == Some(SValue::Function(fname, ps, body)),
        fname != "print"@,
        args.len() == ps.len(),
        eval_args(env, args, 0, out, depth).0 is Ok,
        depth > 0,
    ensures
        ({
            let (vals, o) = eval_args(env, args, 0, out, depth);
            let (res, o2) = exec_block(
                env.push(bind_params(ps, vals->Ok_0)),
                body,
                0,
                SValue::Null,
                o,
                (depth - 1) as nat,
            );
            eval(env, SExpr::FunctionCall(name, args), out, depth) == (
                match res {
                    Ok((v, _)) => Ok::<SValue, SRuntimeError>(v),
                    Err(e) => Err(e),
                },
                o2,
            )
        }),
{
}

/// A name declared later is seen by a function body run afterwards: in the
/// caller's environment after redeclaring `x`, the call scope finds the new value.
pub proof fn lemma_redeclared_name_is_seen(env: REnv, x: Seq<char>, v: SValue, sc: Scope<SValue>)
    requires
        scope_lookup(sc, x) is None,
    ensures
        chain_lookup(chain_define(env, x, v).push(sc), x) == Some(v),
{
    let env2 = chain_define(env, x, v);
    assert(env2.push(sc).drop_last() =~= env2);
    assert(env2.push(sc).last() == sc);
    if env.len() > 0 {
        assert(env2.last() == env.last().push((x, v)));
    } else {
        assert(env2.last() == seq![(x, v)]);
    }
    assert(scope_lookup(env2.last(), x) == Some(v));
    assert(chain_lookup(env2, x) == Some(v));
}

/// Calling a user function with a number of arguments other than its number of
/// parameters fails before any argument is evaluated, with both counts.
pub proof fn lemma_arity_mismatch(
    env: REnv,
    name: Seq<char>,
    args: Seq<SExpr>,
    fname: Seq<char>,
    ps: Seq<SParam>,
    body: Seq<SStmt>,
    out: Seq<SValue>,
    depth: nat,
)
    requires
        chain_lookup(env, name) == Some(SValue::Function(fname, ps, body)),
        fname != "print"@,
        args.len() != ps.len(),
    ensures
        eval(env, SExpr::FunctionCall(name, args), out, depth) == (
            Err::<SValue, SRuntimeError>(SRuntimeError::ArityMismatch(ps.len(), args.len())),
            out,
        ),
{
}

/// Evaluating arguments from `i` on gives one value for each of them.
pub proof fn lemma_eval_args_len(env: REnv, args: Seq<SExpr>, i: int, out: Seq<SValue>, depth: nat)
    requires
        0 <= i <= args.len(),
    ensures
        eval_args(env, args, i, out, depth).0 is Ok ==> eval_args(env, args, i, out, depth).0->Ok_0.len()
            == args.len() - i,
    decreases args.len() - i,
{
    if i < args.len() {
        let o = eval(env, args[i], out, depth).1;
        lemma_eval_args_len(env, args, i + 1, o, depth);
    }
}

impl Interpreter {
    /// The model of the current environment.
    pub closed spec fn env(&self) -> REnv {
        self.environment.model()
    }

    /// The values written by `print` so far, in order.
    pub closed spec fn printed(&self) -> Seq<SValue> {
        values_model(self.output@)
    }

    /// The call-depth bound of this interpreter.
    pub closed spec fn depth(&self) -> nat {
        self.max_depth as nat
    }

    pub fn new() -> (r: Interpreter)
        ensures
            r.env() == builtin_values(),
            r.printed() == Seq::<SValue>::empty(),
            r.depth() == MAX_CALL_DEPTH,
    {
        let r = Interpreter { environment: Environment::new(), output: Vec::new(), max_depth: MAX_CALL_DEPTH };
        assert(r.printed() =~= Seq::<SValue>::empty());
        r
    }

    /// The values written by `print` so far, in order.
    pub fn output(&self) -> (r: &Vec<Value>)
        ensures
            values_model(r@) == self.printed(),
    {
        &self.output
    }

    /// Executes the statements of a program in order; stops at the first runtime error.
    /// What `print` writes is appended to the output, also before an error.
    pub fn interpret(&mut self, program: Program) -> (r: Result<(), RuntimeError>)
        ensures
            final(self).depth() == old(self).depth(),
            ({
                let (res, out) = exec_block(
                    old(self).env(),
                    program.model(),
                    0,
                    SValue::Null,
                    old(self).printed(),
                    old(self).depth(),
                );
                &&& final(self).printed() == out
                &&& match res {
                    Ok((_, env)) => r is Ok && final(self).env() == env,
                    Err(e) => r is Err && r->Err_0.model() == e,
                }
            }),
    {
        let depth = self.max_depth;
        match self.execute_block(&program.statements, 0, Value::Null, depth) {
            Ok(_) => Ok(()),
            Err(e) => Err(e),
        }
    }

    /// Truthiness of a value, as `if` reads it.
    pub fn is_truthy(&self, value: &Value) -> (r: bool)
        ensures
            r == truthy(value.model()),
    {
        match value {
            Value::Boolean(b) => *b,
            Value::Null => false,
            Value::Integer(i) => *i != 0,
            Value::String(s) => s.unicode_len() > 0,
            Value::Function { .. } => true,
        }
    }

    /// Equality of two values, as `is` reads it.
    pub fn values_equal(&self, left: &Value, right: &Value) -> (r: bool)
        ensures
            r == values_equal(left.model(), right.model()),
    {
        match (left, right) {
            (Value::String(a), Value::String(b)) => *a == *b,
            (Value::Integer(a), Value::Integer(b)) => *a == *b,
            (Value::Boolean(a), Value::Boolean(b)) => *a == *b,
            (Value::Null, Value::Null) => true,
            _ => false,
        }
    }

    fn execute_block(&mut self, ss: &Vec<Statement>, i: usize, last: Value, depth: usize) -> (r: Result<Value, RuntimeError>)
        requires
            i <= ss.len(),
        ensures
            final(self).depth() == old(self).depth(),
            ({
                let (res, out) = exec_block(
                    old(self).env(),
                    stmts_model(ss@),
                    i as int,
                    last.model(),
                    old(self).printed(),
                    depth as nat,
                );
                &&& final(self).printed() == out
                &&& match res {
                    Ok((v, env)) => r is Ok && r->Ok_0.model() == v && final(self).env() == env,
                    Err(e) => r is Err && r->Err_0.model() == e,
                }
            }),
        decreases depth, stmts_size(stmts_model(ss@), i as int), 1int,
    {
        if i >= ss.len() {
            return Ok(last);
        }
        let ghost m = stmts_model(ss@);
        assert(m[i as int] == ss[i as int].model());
        proof {
            lemma_sizes_positive(SExpr::IntegerLiteral(0), m[i as int]);
        }
        let v = match self.execute_statement(&ss[i], depth) {
            Ok(v) => v,
            Err(e) => return Err(e),
        };
        self.execute_block(ss, i + 1, v, depth)
    }

    fn execute_statement(&mut self, statement: &Statement, depth: usize) -> (r: Result<Value, RuntimeError>)
        ensures
            final(self).depth() == old(self).depth(),
            ({
                let (res, out) = exec_stmt(old(self).env(), statement.model(), old(self).printed(), depth as nat);
                &&& final(self).printed() == out
                &&& match res {
                    Ok((v, env)) => r is Ok && r->Ok_0.model() == v && final(self).env() == env,
                    Err(e) => r is Err && r->Err_0.model() == e,
                }
            }),
        decreases depth, stmt_size(statement.model()), 0int,
    {
        proof {
            lemma_statement_model(statement);
        }
        match statement {
            Statement::Expression(e) => self.evaluate_expression(e, depth),
            Statement::FunctionDeclaration { name, parameters, body } => {
                let function = Value::Function {
                    name: name.clone(),
                    parameters: copy_parameters(parameters),
                    body: copy_statements(body),
                };
                self.environment.define(name.clone(), function);
                Ok(Value::Null)
            },
            Statement::IfStatement { condition, body } => {
                let cv = match self.evaluate_expression(condition, depth) {
                    Ok(v) => v,
                    Err(e) => return Err(e),
                };
                if self.is_truthy(&cv) {
                    self.execute_block(body, 0, Value::Null, depth)
                } else {
                    Ok(Value::Null)
                }
            },
            Statement::Comment(_) => Ok(Value::Null),
        }
    }

    fn evaluate_arguments(&mut self, args: &Vec<Expression>, i: usize, depth: usize) -> (r: Result<Vec<Value>, RuntimeError>)
        requires
            i <= args.len(),
        ensures
            final(self).depth() == old(self).depth(),
            final(self).env() == old(self).env(),
            ({
                let (res, out) = eval_args(old(self).env(), exprs_model(args@), i as int, old(self).printed(), depth as nat);
                &&& final(self).printed() == out
                &&& match res {
                    Ok(vals) => r is Ok && values_model(r->Ok_0@) == vals,
                    Err(e) => r is Err && r->Err_0.model() == e,
                }
            }),
        decreases depth, exprs_size(exprs_model(args@), i as int), 1int,
    {
        if i >= args.len() {
            let v: Vec<Value> = Vec::new();
            assert(values_model(v@) =~= Seq::empty());
            return Ok(v);
        }
        let ghost m = exprs_model(args@);
        assert(m[i as int] == args[i as int].model());
        proof {
            lemma_sizes_positive(m[i as int], SStmt::Comment(Seq::empty()));
        }
        let v = match self.evaluate_expression(&args[i], depth) {
            Ok(v) => v,
            Err(e) => return Err(e),
        };
        let mut rest = match self.evaluate_arguments(args, i + 1, depth) {
            Ok(r) => r,
            Err(e) => return Err(e),
        };
        let ghost vm = v.model();
        let ghost rm = values_model(rest@);
        rest.insert(0, v);
        assert(values_model(rest@) =~= seq![vm] + rm);
        Ok(rest)
    }

    /// Evaluates an expression in the current environment, allowing `depth` more
    /// nested calls of user functions; what `print` writes is appended to the output.
    pub fn evaluate_expression(&mut self, expr: &Expression, depth: usize) -> (r: Result<Value, RuntimeError>)
        ensures
            final(self).depth() == old(self).depth(),
            final(self).env() == old(self).env(),
            ({
                let (res, out) = eval(old(self).env(), expr.model(), old(self).printed(), depth as nat);
                &&& final(self).printed() == out
                &&& match res {
                    Ok(v) => r is Ok && r->Ok_0.model() == v,
                    Err(e) => r is Err && r->Err_0.model() == e,
                }
            }),
        decreases depth, expr_size(expr.model()), 0int,
    {
        match expr {
            Expression::StringLiteral(s) => Ok(Value::String(s.clone())),
            Expression::IntegerLiteral(i) => Ok(Value::Integer(*i)),
            Expression::Identifier(name) => match self.environment.get(name.as_str()) {
                Some(v) => Ok(v),
                None => Err(RuntimeError::UndefinedVariable(name.clone())),
            },
            Expression::FunctionCall { name, arguments } => {
                proof {
                    lemma_call_model(expr);
                }
                let function = match self.environment.get(name.as_str()) {
                    Some(v) => v,
                    None => return Err(RuntimeError::UndefinedFunction(name.clone())),
                };
                match function {
                    Value::Function { name: fname, parameters, body } => {
                        if str_eq(fname.as_str(), "print") {
                            let mut vals = match self.evaluate_arguments(arguments, 0, depth) {
                                Ok(v) => v,
                                Err(e) => return Err(e),
                            };
                            let ghost before = self.output@;
                            let ghost vm = values_model(vals@);
                            self.output.append(&mut vals);
                            assert(values_model(self.output@) =~= values_model(before) + vm);
                            return Ok(Value::Null);
                        }
                        if arguments.len() != parameters.len() {
                            return Err(
                                RuntimeError::ArityMismatch {
                                    expected: parameters.len(),
                                    actual: arguments.len(),
                                },
                            );
                        }
                        let ghost out0 = self.printed();
                        let vals = match self.evaluate_arguments(arguments, 0, depth) {
                            Ok(v) => v,
                            Err(e) => return Err(e),
                        };
                        proof {
                            lemma_eval_args_len(self.env(), exprs_model(arguments@), 0, out0, depth as nat);
                        }
                        if depth == 0 {
                            return Err(RuntimeError::CallDepthExceeded);
                        }
                        let ghost pm = params_model(parameters@);
                        let ghost vm = values_model(vals@);
                        let saved = self.environment.copy();
                        let ghost env0 = self.env();
                        let ghost printed1 = self.printed();
                        self.environment.enter_scope();
                        assert(bind_params(pm, vm).subrange(0, 0) =~= Seq::empty());
                        let mut j: usize = 0;
                        while j < parameters.len()
                            invariant
                                j <= parameters.len(),
                                parameters.len() == vals.len(),
                                pm == params_model(parameters@),
                                vm == values_model(vals@),
                                self.env() == env0.push(bind_params(pm, vm).subrange(0, j as int)),
                                self.printed() == printed1,
                                self.depth() == old(self).depth(),
                            decreases parameters.len() - j,
                        {
                            let ghost before = self.env();
                            self.environment.define(parameters[j].name.clone(), vals[j].copy());
                            assert(bind_params(pm, vm).subrange(0, j + 1) =~= bind_params(pm, vm).subrange(
                                0,
                                j as int,
                            ).push((pm[j as int].name, vm[j as int])));
                            assert(self.env() =~= env0.push(bind_params(pm, vm).subrange(0, j + 1)));
                            j = j + 1;
                        }
                        assert(bind_params(pm, vm).subrange(0, pm.len() as int) =~= bind_params(pm, vm));
                        let res = self.execute_block(&body, 0, Value::Null, depth - 1);
                        self.environment = saved;
                        res
                    },
                    _ => Err(RuntimeError::NotAFunction(name.clone())),
                }
            },
            Expression::TypedValue { type_tag, value } => {
                if let Expression::Identifier(ident) = &**value {
                    assert(value.model() == SExpr::Identifier(ident@));
                    if str_eq(type_tag.as_str(), "String") {
                        return Ok(Value::String(ident.clone()));
                    }
                    if str_eq(type_tag.as_str(), "Integer") {
                        let cs = chars_of(ident.as_str());
                        assert(cs@.subrange(0, cs.len() as int) =~= cs@);
                        return match parse_integer(&cs, 0, cs.len()) {
                            Some(i) => Ok(Value::Integer(i)),
                            None => Err(RuntimeError::CannotConvert(ident.clone())),
                        };
                    }
                }
                let inner = match self.evaluate_expression(value, depth) {
                    Ok(v) => v,
                    Err(e) => return Err(e),
                };
                let admitted = match &inner {
                    Value::String(_) => str_eq(type_tag.as_str(), "String"),
                    Value::Integer(_) => str_eq(type_tag.as_str(), "Integer"),
                    _ => false,
                };
                if admitted {
                    Ok(inner)
                } else {
                    Err(RuntimeError::TypeMismatch { expected: type_tag.clone(), actual: inner })
                }
            },
            Expression::BinaryOperation { left, operator, right } => {
                let lv = match self.evaluate_expression(left, depth) {
                    Ok(v) => v,
                    Err(e) => return Err(e),
                };
                let rv = match self.evaluate_expression(right, depth) {
                    Ok(v) => v,
                    Err(e) => return Err(e),
                };
                if str_eq(operator.as_str(), "is") {
                    Ok(Value::Boolean(self.values_equal(&lv, &rv)))
                } else if str_eq(operator.as_str(), "is not") {
                    Ok(Value::Boolean(!self.values_equal(&lv, &rv)))
                } else {
                    Err(RuntimeError::UnknownOperator(operator.clone()))
                }
            },
        }
    }
}

} // verus!
