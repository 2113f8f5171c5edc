use vstd::prelude::*;
use vstd::string::StringExecFns;
use crate::parser::{Expression, Parameter, Program, SExpr, SParam, SStmt, Statement, exprs_model, params_model, stmts_model, lemma_statement_model};
use crate::scope::{Scope, chain_define, chain_lookup, scope_lookup, str_eq};

verus! {

broadcast use vstd::std_specs::vec::group_vec_axioms;

/// A static type.
#[derive(Debug)]
pub enum Type {
    String,
    Integer,
    Boolean,
    Void,
    Function { parameters: Vec<Type>, return_type: Box<Type> },
    Unknown,
}

pub ghost enum SType {
    String,
    Integer,
    Boolean,
    Void,
    Function(Seq<SType>, Box<SType>),
    Unknown,
}

impl Type {
    /// The type's mathematical model.
    pub open spec fn model(&self) -> SType
        decreases self,
    {
        match self {
            Type::String => SType::String,
            Type::Integer => SType::Integer,
            Type::Boolean => SType::Boolean,
            Type::Void => SType::Void,
            Type::Function { parameters, return_type } => SType::Function(
                Seq::new(
                    parameters.len() as nat,
                    |i: int|
                        if 0 <= i < parameters.len() {
                            parameters[i].model()
                        } else {
                            SType::Unknown
                        },
                ),
                Box::new(return_type.model()),
            ),
            Type::Unknown => SType::Unknown,
        }
    }

    /// A copy of the type, equal in its model.
    pub fn copy(&self) -> (r: Type)
        ensures
            r.model() == self.model(),
        decreases self,
    {
        match self {
            Type::String => Type::String,
            Type::Integer => Type::Integer,
            Type::Boolean => Type::Boolean,
            Type::Void => Type::Void,
            Type::Unknown => Type::Unknown,
            Type::Function { parameters, return_type } => {
                let mut ps: Vec<Type> = Vec::new();
                let mut i: usize = 0;
                while i < parameters.len()
                    invariant
                        i <= parameters.len(),
                        ps.len() == i,
                        forall|j: int| 0 <= j < i ==> ps[j].model() == parameters[j].model(),
                        *self is Function,
                        self->Function_parameters == *parameters,
                    decreases parameters.len() - i,
                {
                    proof {
                        assert(decreases_to!(*self => *parameters));
                        assert(decreases_to!(*parameters => parameters[i as int]));
                    }
                    ps.push(parameters[i].copy());
                    i = i + 1;
                }
                let r = Type::Function { parameters: ps, return_type: Box::new(return_type.copy()) };
                assert(r.model()->Function_0 =~= self.model()->Function_0);
                r
            },
        }
    }

    /// Whether two types are the same type.
    pub fn same(&self, other: &Type) -> (r: bool)
        ensures
            r == (self.model() == other.model()),
        decreases self,
    {
        match (self, other) {
            (Type::String, Type::String) => true,
            (Type::Integer, Type::Integer) => true,
            (Type::Boolean, Type::Boolean) => true,
            (Type::Void, Type::Void) => true,
            (Type::Unknown, Type::Unknown) => true,
            (
                Type::Function { parameters: pa, return_type: ra },
                Type::Function { parameters: pb, return_type: rb },
            ) => {
                let ghost ma = self.model()->Function_0;
                let ghost mb = other.model()->Function_0;
                if pa.len() != pb.len() {
                    assert(ma.len() != mb.len());
                    return false;
                }
                let mut i: usize = 0;
                while i < pa.len()
                    invariant
                        i <= pa.len(),
                        pa.len() == pb.len(),
                        ma.len() == pa.len(),
                        mb.len() == pb.len(),
                        forall|j: int| 0 <= j < pa.len() ==> ma[j] == pa[j].model(),
                        forall|j: int| 0 <= j < pb.len() ==> mb[j] == pb[j].model(),
                        forall|j: int| 0 <= j < i ==> ma[j] == mb[j],
                        ma == self.model()->Function_0,
                        mb == other.model()->Function_0,
                        *self is Function,
                        self->Function_parameters == *pa,
                    decreases pa.len() - i,
                {
                    proof {
                        assert(decreases_to!(*self => *pa));
                        assert(decreases_to!(*pa => pa[i as int]));
                    }
                    if !pa[i].same(&pb[i]) {
                        assert(ma[i as int] != mb[i as int]);
                        return false;
                    }
                    i = i + 1;
                }
                assert(ma =~= mb);
                ra.same(rb)
            },
            _ => false,
        }
    }
}

pub open spec fn types_model(v: Seq<Type>) -> Seq<SType> {
    v.map_values(|t: Type| t.model())
}

pub open spec fn param_types_of(t: &Type) -> Seq<Type> {
    match t {
        Type::Function { parameters, .. } => parameters@,
        _ => Seq::empty(),
    }
}

/// The model of a function type, stated over the models of its parts.
pub proof fn lemma_function_type_model(t: &Type)
    ensures
        match t {
            Type::Function { parameters, return_type } => t.model() == SType::Function(
                types_model(parameters@),
                Box::new(return_type.model()),
            ),
            _ => true,
        },
{
    match t {
        Type::Function { parameters, return_type } => {
            assert(t.model()->Function_0 =~= types_model(parameters@));
        },
        _ => {},
    }
}

/// How a type is written in messages: its name, or `fn(P1, P2) -> R` for a function.
pub open spec fn type_text(t: SType) -> Seq<char>
    decreases t, 0int,
{
    match t {
        SType::String => "String"@,
        SType::Integer => "Integer"@,
        SType::Boolean => "Boolean"@,
        SType::Void => "Void"@,
        SType::Unknown => "Unknown"@,
        SType::Function(ps, ret) => "fn("@ + types_text(ps, 0) + ") -> "@ + type_text(*ret),
    }
}

/// The types `ps[i..]` written one after another, separated by `, `.
pub open spec fn types_text(ps: Seq<SType>, i: int) -> Seq<char>
    decreases ps, ps.len() - i,
{
    if i < 0 || i >= ps.len() {
        Seq::empty()
    } else {
        (if i > 0 {
            ", "@
        } else {
            Seq::empty()
        }) + type_text(ps[i]) + types_text(ps, i + 1)
    }
}

impl Type {
    /// How the type is written in messages.
    pub fn display(&self) -> (r: String)
        ensures
            r@ == type_text(self.model()),
        decreases self, 0int,
    {
        proof {
            lemma_function_type_model(self);
        }
        match self {
            Type::String => "String".to_owned(),
            Type::Integer => "Integer".to_owned(),
            Type::Boolean => "Boolean".to_owned(),
            Type::Void => "Void".to_owned(),
            Type::Unknown => "Unknown".to_owned(),
            Type::Function { parameters, return_type } => {
                proof {
                    assert(decreases_to!(*self => *parameters));
                }
                let ps = display_types(parameters, 0);
                "fn(".to_owned().concat(ps.as_str()).concat(") -> ").concat(return_type.display().as_str())
            },
        }
    }
}

fn display_types(ps: &Vec<Type>, i: usize) -> (r: String)
    requires
        i <= ps.len(),
    ensures
        r@ == types_text(types_model(ps@), i as int),
    decreases ps, ps.len() - i,
{
    if i >= ps.len() {
        return String::new();
    }
    proof {
        assert(decreases_to!(*ps => ps[i as int]));
    }
    assert(types_model(ps@)[i as int] == ps[i as int].model());
    let sep = if i > 0 {
        ", ".to_owned()
    } else {
        String::new()
    };
    let head = ps[i].display();
    let rest = display_types(ps, i + 1);
    sep.concat(head.as_str()).concat(rest.as_str())
}

/// Gradual compatibility: equal types, or either side `Unknown`.
pub open spec fn compatible(actual: SType, expected: SType) -> bool {
    expected == SType::Unknown || actual == SType::Unknown || actual == expected
}

/// The type that a declared type name stands for; unrecognised names are `Unknown`.
pub open spec fn type_of_name(n: Seq<char>) -> SType {
    if n == "String"@ {
        SType::String
    } else if n == "Integer"@ {
        SType::Integer
    } else {
        SType::Unknown
    }
}

/// A type error.
#[derive(Debug)]
pub enum TypeError {
    UndefinedVariable(String),
    UndefinedFunction(String),
    ArityMismatch { name: String, expected: usize, actual: usize },
    Mismatch { expected: Type, actual: Type },
    ConditionNotBoolean(Type),
    NotAFunction(String),
    UnknownOperator(String),
}

pub ghost enum STypeError {
    UndefinedVariable(Seq<char>),
    UndefinedFunction(Seq<char>),
    ArityMismatch(Seq<char>, nat, nat),
    Mismatch(SType, SType),
    ConditionNotBoolean(SType),
    NotAFunction(Seq<char>),
    UnknownOperator(Seq<char>),
}

impl TypeError {
    pub open spec fn model(&self) -> STypeError {
        match self {
            TypeError::UndefinedVariable(n) => STypeError::UndefinedVariable(n@),
            TypeError::UndefinedFunction(n) => STypeError::UndefinedFunction(n@),
            TypeError::ArityMismatch { name, expected, actual } => STypeError::ArityMismatch(
                name@,
                *expected as nat,
                *actual as nat,
            ),
            TypeError::Mismatch { expected, actual } => STypeError::Mismatch(
                expected.model(),
                actual.model(),
            ),
            TypeError::ConditionNotBoolean(t) => STypeError::ConditionNotBoolean(t.model()),
            TypeError::NotAFunction(n) => STypeError::NotAFunction(n@),
            TypeError::UnknownOperator(op) => STypeError::UnknownOperator(op@),
        }
    }
}

/// The model of a type environment: its scopes, the innermost last.
pub type TEnv = Seq<Scope<SType>>;

/// The types of the built-ins: `print: (Unknown) -> Void` and `function: (Unknown) -> Unknown`.
pub open spec fn builtin_types() -> TEnv {
    seq![
        seq![
            ("print"@, SType::Function(seq![SType::Unknown], Box::new(SType::Void))),
            ("function"@, SType::Function(seq![SType::Unknown], Box::new(SType::Unknown))),
        ],
    ]
}

/// The type of an expression, or the first type error in it.
pub open spec fn check_expr(env: TEnv, e: SExpr) -> Result<SType, STypeError>
    decreases e, 0int,
{
    match e {
        SExpr::StringLiteral(_) => Ok(SType::String),
        SExpr::IntegerLiteral(_) => Ok(SType::Integer),
        SExpr::Identifier(n) => match chain_lookup(env, n) {
            Some(t) => Ok(t),
            None => Err(STypeError::UndefinedVariable(n)),
        },
        SExpr::FunctionCall(n, args) => match chain_lookup(env, n) {
            None => Err(STypeError::UndefinedFunction(n)),
            Some(ft) => {
                if n == "print"@ {
                    match check_each(env, args, 0) {
                        Err(err) => Err(err),
                        Ok(_) => Ok(SType::Void),
                    }
                } else if n == "function"@ {
                    if args.len() > 0 {
                        check_expr(env, args[0])
                    } else {
                        Ok(SType::Unknown)
                    }
                } else {
                    match ft {
                        SType::Function(ps, ret) => {
                            if args.len() != ps.len() {
                                Err(STypeError::ArityMismatch(n, ps.len(), args.len()))
                            } else {
                                match check_against(env, args, ps, 0) {
                                    Err(err) => Err(err),
                                    Ok(_) => Ok(*ret),
                                }
                            }
                        },
                        _ => Err(STypeError::NotAFunction(n)),
                    }
                }
            }
        },
        SExpr::TypedValue(tag, v) => {
            let expected = type_of_name(tag);
            if *v is Identifier {
                Ok(expected)
            } else {
                match check_expr(env, *v) {
                    Err(err) => Err(err),
                    Ok(vt) => {
                        if compatible(vt, expected) {
                            Ok(expected)
                        } else {
                            Err(STypeError::Mismatch(expected, vt))
                        }
                    },
                }
            }
        },
        SExpr::BinaryOperation(l, op, r) => match check_expr(env, *l) {
            Err(err) => Err(err),
            Ok(_) => match check_expr(env, *r) {
                Err(err) => Err(err),
                Ok(_) => {
                    if op == "is"@ || op == "is not"@ {
                        Ok(SType::Boolean)
                    } else {
                        Err(STypeError::UnknownOperator(op))
                    }
                },
            },
        },
    }
}

/// Checks `args[i..]` in order; the first error, if any.
pub open spec fn check_each(env: TEnv, args: Seq<SExpr>, i: int) -> Result<(), STypeError>
    decreases args, args.len() - i,
{
    if i < 0 || i >= args.len() {
        Ok(())
    } else {
        match check_expr(env, args[i]) {
            Err(err) => Err(err),
            Ok(_) => check_each(env, args, i + 1),
        }
    }
}

/// Checks `args[i..]` in order against the parameter types `ps`; the first error, if any.
pub open spec fn check_against(env: TEnv, args: Seq<SExpr>, ps: Seq<SType>, i: int) -> Result<(), STypeError>
    decreases args, args.len() - i,
{
    if i < 0 || i >= args.len() || i >= ps.len() {
        Ok(())
    } else {
        match check_expr(env, args[i]) {
            Err(err) => Err(err),
            Ok(at) => {
                if compatible(at, ps[i]) {
                    check_against(env, args, ps, i + 1)
                } else {
                    Err(STypeError::Mismatch(ps[i], at))
                }
            },
        }
    }
}

/// A function's parameters as a scope of their declared types.
pub open spec fn param_scope(ps: Seq<SParam>) -> Scope<SType> {
    ps.map_values(|p: SParam| (p.name, type_of_name(p.type_tag)))
}

/// The declared types of parameters.
pub open spec fn declared_param_types(ps: Seq<SParam>) -> Seq<SType> {
    ps.map_values(|p: SParam| type_of_name(p.type_tag))
}

/// The type of a declared function: its parameters' declared types, returning `Void`.
pub open spec fn declared_type(ps: Seq<SParam>) -> SType {
    SType::Function(declared_param_types(ps), Box::new(SType::Void))
}

/// Checks a statement: its type and the environment after it, or the first type error.
/// A function is bound before its body is checked, in a scope of its own that is then dropped.
pub open spec fn check_stmt(env: TEnv, s: SStmt) -> Result<(SType, TEnv), STypeError>
    decreases s, 0int,
{
    match s {
        SStmt::Expr(e) => match check_expr(env, e) {
            Err(err) => Err(err),
            Ok(t) => Ok((t, env)),
        },
        SStmt::FunctionDeclaration(name, ps, body) => {
            let env1 = chain_define(env, name, declared_type(ps));
            match check_block(env1.push(param_scope(ps)), body, 0) {
                Err(err) => Err(err),
                Ok(_) => Ok((SType::Void, env1)),
            }
        },
        SStmt::IfStatement(c, body) => match check_expr(env, c) {
            Err(err) => Err(err),
            Ok(ct) => {
                if ct == SType::Boolean || ct == SType::Unknown {
                    match check_block(env, body, 0) {
                        Err(err) => Err(err),
                        Ok(env2) => Ok((SType::Void, env2)),
                    }
                } else {
                    Err(STypeError::ConditionNotBoolean(ct))
                }
            },
        },
        SStmt::Comment(_) => Ok((SType::Void, env)),
    }
}

/// Checks `ss[i..]` in order: the environment after them, or the first type error.
pub open spec fn check_block(env: TEnv, ss: Seq<SStmt>, i: int) -> Result<TEnv, STypeError>
    decreases ss, ss.len() - i,
{
    if i < 0 || i >= ss.len() {
        Ok(env)
    } else {
        match check_stmt(env, ss[i]) {
            Err(err) => Err(err),
            Ok((_, env2)) => check_block(env2, ss, i + 1),
        }
    }
}

/// The result of checking a whole program from the built-ins on.
pub open spec fn check_spec(program: Seq<SStmt>) -> Result<TEnv, STypeError> {
    check_block(builtin_types(), program, 0)
}

pub open spec fn scope_model(sc: Seq<(String, Type)>) -> Scope<SType> {
    sc.map_values(|b: (String, Type)| (b.0@, b.1.model()))
}

/// Name-to-type bindings in a chain of scopes.
pub struct TypeEnvironment {
    scopes: Vec<Vec<(String, Type)>>,
}

impl TypeEnvironment {
    /// The environment's model: its scopes, the innermost last.
    pub closed spec fn model(&self) -> TEnv {
        self.scopes@.map_values(|sc: Vec<(String, Type)>| scope_model(sc@))
    }

    /// The root scope, holding the built-ins `print` and `function`.
    pub fn new() -> (r: TypeEnvironment)
        ensures
            r.model() == builtin_types(),
    {
        let mut env = TypeEnvironment { scopes: Vec::new() };
        env.scopes.push(Vec::new());
        let mut print_params: Vec<Type> = Vec::new();
        print_params.push(Type::Unknown);
        let print_type = Type::Function { parameters: print_params, return_type: Box::new(Type::Void) };
        let mut fn_params: Vec<Type> = Vec::new();
        fn_params.push(Type::Unknown);
        let fn_type = Type::Function { parameters: fn_params, return_type: Box::new(Type::Unknown) };
        proof {
            lemma_function_type_model(&print_type);
            lemma_function_type_model(&fn_type);
            assert(types_model(param_types_of(&print_type)) =~= seq![SType::Unknown]);
            assert(types_model(param_types_of(&fn_type)) =~= seq![SType::Unknown]);
        }
        env.define("print".to_owned(), print_type);
        env.define("function".to_owned(), fn_type);
        assert(env.model() =~~= builtin_types());
        env
    }

    /// A copy of the environment, equal in its model.
    pub fn copy(&self) -> (r: TypeEnvironment)
        ensures
            r.model() == self.model(),
    {
        let mut scopes: Vec<Vec<(String, Type)>> = Vec::new();
        let mut i: usize = 0;
        while i < self.scopes.len()
            invariant
                i <= self.scopes.len(),
                scopes.len() == i,
                forall|k: int| 0 <= k < i ==> scope_model(#[trigger] scopes[k]@) == scope_model(self.scopes[k]@),
            decreases self.scopes.len() - i,
        {
            let sc = &self.scopes[i];
            let mut c: Vec<(String, Type)> = Vec::new();
            let mut j: usize = 0;
            while j < sc.len()
                invariant
                    j <= sc.len(),
                    c.len() == j,
                    forall|k: int| 0 <= k < j ==> (#[trigger] c[k]).0@ == sc[k].0@ && c[k].1.model() == sc[k].1.model(),
                decreases sc.len() - j,
            {
                c.push((sc[j].0.clone(), sc[j].1.copy()));
                j = j + 1;
            }
            assert(scope_model(c@) =~= scope_model(sc@));
            scopes.push(c);
            i = i + 1;
        }
        let r = TypeEnvironment { scopes };
        assert(r.model() =~= self.model());
        r
    }

    /// A new, empty scope whose parent is `parent`.
    pub fn extend(parent: TypeEnvironment) -> (r: TypeEnvironment)
        ensures
            r.model() == parent.model().push(Seq::empty()),
    {
        let mut env = parent;
        env.enter_scope();
        env
    }

    fn enter_scope(&mut self)
        ensures
            final(self).model() == old(self).model().push(Seq::empty()),
    {
        let sc: Vec<(String, Type)> = Vec::new();
        assert(scope_model(sc@) =~= Seq::empty());
        self.scopes.push(sc);
        assert(self.model() =~= old(self).model().push(Seq::empty()));
    }

    fn leave_scope(&mut self)
        ensures
            old(self).model().len() > 0 ==> final(self).model() == old(self).model().drop_last(),
    {
        let _ = self.scopes.pop();
        assert(old(self).model().len() > 0 ==> self.model() =~= old(self).model().drop_last());
    }

    /// Binds `name` to `ty` in the innermost scope.
    pub fn define(&mut self, name: String, ty: Type)
        ensures
            final(self).model() == chain_define(old(self).model(), name@, ty.model()),
    {
        let ghost b = (name@, ty.model());
        match self.scopes.pop() {
            None => {
                let mut sc: Vec<(String, Type)> = Vec::new();
                sc.push((name, ty));
                self.scopes.push(sc);
                assert(scope_model(sc@) =~= seq![b]);
                assert(self.model() =~= chain_define(old(self).model(), b.0, b.1));
            },
            Some(last) => {
                let mut sc = last;
                let ghost before = scope_model(sc@);
                sc.push((name, ty));
                assert(scope_model(sc@) =~= before.push(b));
                self.scopes.push(sc);
                assert(self.model() =~= chain_define(old(self).model(), b.0, b.1));
            },
        }
    }

    /// The type bound to `name` in the innermost scope that binds it.
    pub fn get(&self, name: &str) -> (r: Option<Type>)
        ensures
            match chain_lookup(self.model(), name@) {
                Some(t) => r is Some && r->0.model() == t,
                None => r is None,
            },
    {
        let ghost m = self.model();
        let mut i = self.scopes.len();
        assert(m.subrange(0, i as int) =~= m);
        while i > 0
            invariant
                i <= self.scopes.len(),
                m == self.model(),
                chain_lookup(m, name@) == chain_lookup(m.subrange(0, i as int), name@),
            decreases i,
        {
            let sc = &self.scopes[i - 1];
            let ghost sm = scope_model(sc@);
            let mut j = sc.len();
            assert(sm.subrange(0, j as int) =~= sm);
            assert(m.subrange(0, i as int).last() == sm);
            while j > 0
                invariant
                    j <= sc.len(),
                    i <= self.scopes.len(),
                    0 < i,
                    m == self.model(),
                    sc == self.scopes[i - 1],
                    m.subrange(0, i as int).last() == sm,
                    chain_lookup(m, name@) == chain_lookup(m.subrange(0, i as int), name@),
                    sm == scope_model(sc@),
                    scope_lookup(sm, name@) == scope_lookup(sm.subrange(0, j as int), name@),
                decreases j,
            {
                if str_eq(sc[j - 1].0.as_str(), name) {
                    assert(sm.subrange(0, j as int).last() == sm[j - 1]);
                    assert(m.subrange(0, i as int).last() == sm);
                    return Some(sc[j - 1].1.copy());
                }
                assert(sm.subrange(0, j as int).drop_last() =~= sm.subrange(0, j - 1));
                j = j - 1;
            }
            assert(m.subrange(0, i as int).last() == sm);
            assert(sm.subrange(0, 0) =~= Seq::<(Seq<char>, SType)>::empty());
            assert(m.subrange(0, i as int).drop_last() =~= m.subrange(0, i - 1));
            i = i - 1;
        }
        None
    }
}

/// The type that a declared type name stands for.
pub fn parse_type_name(name: &str) -> (r: Type)
    ensures
        r.model() == type_of_name(name@),
{
    if str_eq(name, "String") {
        Type::String
    } else if str_eq(name, "Integer") {
        Type::Integer
    } else {
        Type::Unknown
    }
}

/// Gradual compatibility of an actual type with an expected one.
pub fn types_compatible(actual: &Type, expected: &Type) -> (r: bool)
    ensures
        r == compatible(actual.model(), expected.model()),
{
    if let Type::Unknown = expected {
        return true;
    }
    if let Type::Unknown = actual {
        return true;
    }
    actual.same(expected)
}

/// Statically checks programs against a chain of type scopes seeded with the built-ins.
pub struct TypeChecker {
    environment: TypeEnvironment,
}

impl TypeChecker {
    /// The model of the checker's current environment.
    pub closed spec fn env(&self) -> TEnv {
        self.environment.model()
    }

    pub fn new() -> (r: TypeChecker)
        ensures
            r.env() == builtin_types(),
    {
        TypeChecker { environment: TypeEnvironment::new() }
    }

    /// Checks the statements of a program in order; stops at the first type error.
    pub fn check_program(&mut self, program: &Program) -> (r: Result<(), TypeError>)
        ensures
            match check_block(old(self).env(), program.model(), 0) {
                Ok(env) => r is Ok && final(self).env() == env,
                Err(e) => r is Err && r->Err_0.model() == e,
            },
    {
        self.check_statements(&program.statements)
    }

    fn check_statements(&mut self, ss: &Vec<Statement>) -> (r: Result<(), TypeError>)
        ensures
            match check_block(old(self).env(), stmts_model(ss@), 0) {
                Ok(env) => r is Ok && final(self).env() == env,
                Err(e) => r is Err && r->Err_0.model() == e,
            },
        decreases ss, 1int,
    {
        let ghost m = stmts_model(ss@);
        let mut i: usize = 0;
        while i < ss.len()
            invariant
                i <= ss.len(),
                m == stmts_model(ss@),
                check_block(old(self).env(), m, 0) == check_block(self.env(), m, i as int),
            decreases ss.len() - i,
        {
            proof {
                assert(decreases_to!(*ss => ss[i as int]));
            }
            match self.check_statement(&ss[i]) {
                Err(e) => return Err(e),
                Ok(_) => {},
            }
            i = i + 1;
        }
        Ok(())
    }

    fn check_statement(&mut self, statement: &Statement) -> (r: Result<Type, TypeError>)
        ensures
            match check_stmt(old(self).env(), statement.model()) {
                Ok((t, env)) => r is Ok && r->Ok_0.model() == t && final(self).env() == env,
                Err(e) => r is Err && r->Err_0.model() == e,
            },
        decreases statement, 0int,
    {
        proof {
            lemma_statement_model(statement);
        }
        match statement {
            Statement::Expression(e) => self.check_expression(e),
            Statement::FunctionDeclaration { name, parameters, body } => {
                let ghost pm = params_model(parameters@);
                let mut param_types: Vec<Type> = Vec::new();
                let mut i: usize = 0;
                while i < parameters.len()
                    invariant
                        i <= parameters.len(),
                        pm == params_model(parameters@),
                        types_model(param_types@) == declared_param_types(pm.subrange(0, i as int)),
                    decreases parameters.len() - i,
                {
                    let ghost before = types_model(param_types@);
                    let t = parse_type_name(parameters[i].type_tag.as_str());
                    let ghost tm = t.model();
                    param_types.push(t);
                    assert(types_model(param_types@) =~= before.push(tm));
                    assert(declared_param_types(pm.subrange(0, i + 1)) =~= declared_param_types(pm.subrange(0, i as int)).push(tm));
                    i = i + 1;
                }
                assert(pm.subrange(0, pm.len() as int) =~= pm);
                let mut copies: Vec<Type> = Vec::new();
                let mut k: usize = 0;
                while k < param_types.len()
                    invariant
                        k <= param_types.len(),
                        types_model(copies@) == types_model(param_types@).subrange(0, k as int),
                    decreases param_types.len() - k,
                {
                    let ghost before = types_model(copies@);
                    let c = param_types[k].copy();
                    let ghost cm = c.model();
                    copies.push(c);
                    assert(types_model(copies@) =~= before.push(cm));
                    assert(types_model(copies@) =~= types_model(param_types@).subrange(0, k + 1));
                    k = k + 1;
                }
                assert(types_model(copies@) =~= types_model(param_types@));
                let func_type = Type::Function { parameters: copies, return_type: Box::new(Type::Void) };
                proof {
                    lemma_function_type_model(&func_type);
                }
                self.environment.define(name.clone(), func_type);
                let saved = self.environment.copy();
                let ghost env1 = self.env();
                self.environment.enter_scope();
                assert(param_scope(pm.subrange(0, 0)) =~= Seq::empty());
                let mut j: usize = 0;
                while j < parameters.len()
                    invariant
                        j <= parameters.len(),
                        param_types.len() == parameters.len(),
                        pm == params_model(parameters@),
                        types_model(param_types@) == declared_param_types(pm),
                        self.env() == env1.push(param_scope(pm.subrange(0, j as int))),
                    decreases parameters.len() - j,
                {
                    let ghost before = self.env();
                    assert(pm[j as int].name == parameters[j as int].name@);
                    assert(param_types[j as int].model() == types_model(param_types@)[j as int]);
                    assert(param_types[j as int].model() == type_of_name(pm[j as int].type_tag));
                    self.environment.define(parameters[j].name.clone(), param_types[j].copy());
                    assert(param_scope(pm.subrange(0, j + 1)) =~= param_scope(pm.subrange(0, j as int)).push(
                        (pm[j as int].name, type_of_name(pm[j as int].type_tag)),
                    ));
                    assert(self.env() =~= env1.push(param_scope(pm.subrange(0, j + 1))));
                    j = j + 1;
                }
                assert(pm.subrange(0, pm.len() as int) =~= pm);
                proof {
                    assert(decreases_to!(*statement => *body));
                }
                let res = self.check_statements(body);
                self.environment = saved;
                match res {
                    Err(e) => Err(e),
                    Ok(_) => Ok(Type::Void),
                }
            },
            Statement::IfStatement { condition, body } => {
                let ct = match self.check_expression(condition) {
                    Err(e) => return Err(e),
                    Ok(t) => t,
                };
                let ok = match ct {
                    Type::Boolean => true,
                    Type::Unknown => true,
                    _ => false,
                };
                if !ok {
                    return Err(TypeError::ConditionNotBoolean(ct));
                }
                proof {
                    assert(decreases_to!(*statement => *body));
                }
                match self.check_statements(body) {
                    Err(e) => Err(e),
                    Ok(_) => Ok(Type::Void),
                }
            },
            Statement::Comment(_) => Ok(Type::Void),
        }
    }

    fn check_expression(&self, expr: &Expression) -> (r: Result<Type, TypeError>)
        ensures
            match check_expr(self.env(), expr.model()) {
                Ok(t) => r is Ok && r->Ok_0.model() == t,
                Err(e) => r is Err && r->Err_0.model() == e,
            },
        decreases expr,
    {
        let ghost env = self.env();
        match expr {
            Expression::StringLiteral(_) => Ok(Type::String),
            Expression::IntegerLiteral(_) => Ok(Type::Integer),
            Expression::Identifier(name) => match self.environment.get(name.as_str()) {
                Some(t) => Ok(t),
                None => Err(TypeError::UndefinedVariable(name.clone())),
            },
            Expression::FunctionCall { name, arguments } => {
                proof {
                    crate::parser::lemma_call_model(expr);
                }
                let ghost am = exprs_model(arguments@);
                let ft = match self.environment.get(name.as_str()) {
                    Some(t) => t,
                    None => return Err(TypeError::UndefinedFunction(name.clone())),
                };
                if str_eq(name.as_str(), "print") {
                    let mut i: usize = 0;
                    while i < arguments.len()
                        invariant
                            i <= arguments.len(),
                            am == exprs_model(arguments@),
                            env == self.env(),
                            *expr is FunctionCall,
                            expr->FunctionCall_arguments == *arguments,
                            expr.model() == SExpr::FunctionCall(name@, am),
                            chain_lookup(env, name@) is Some,
                            name@ == "print"@,
                            check_each(env, am, 0) == check_each(env, am, i as int),
                        decreases arguments.len() - i,
                    {
                        proof {
                            assert(decreases_to!(*expr => *arguments));
                            assert(decreases_to!(*arguments => arguments[i as int]));
                        }
                        assert(am[i as int] == arguments[i as int].model());
                        match self.check_expression(&arguments[i]) {
                            Err(e) => return Err(e),
                            Ok(_) => {},
                        }
                        i = i + 1;
                    }
                    return Ok(Type::Void);
                }
                if str_eq(name.as_str(), "function") {
                    if arguments.len() > 0 {
                        proof {
                            assert(decreases_to!(*expr => *arguments));
                            assert(decreases_to!(*arguments => arguments[0]));
                        }
                        return self.check_expression(&arguments[0]);
                    }
                    return Ok(Type::Unknown);
                }
                proof {
                    lemma_function_type_model(&ft);
                }
                let ghost ftm = ft.model();
                match ft {
                    Type::Function { parameters, return_type } => {
                        let ghost pm = types_model(parameters@);
                        if arguments.len() != parameters.len() {
                            return Err(
                                TypeError::ArityMismatch {
                                    name: name.clone(),
                                    expected: parameters.len(),
                                    actual: arguments.len(),
                                },
                            );
                        }
                        let mut i: usize = 0;
                        while i < arguments.len()
                            invariant
                                i <= arguments.len(),
                                arguments.len() == parameters.len(),
                                am == exprs_model(arguments@),
                                pm == types_model(parameters@),
                                env == self.env(),
                                *expr is FunctionCall,
                                expr->FunctionCall_arguments == *arguments,
                                expr.model() == SExpr::FunctionCall(name@, am),
                                chain_lookup(env, name@) == Some(ftm),
                                ftm == SType::Function(pm, Box::new(return_type.model())),
                                name@ != "print"@,
                                name@ != "function"@,
                                check_against(env, am, pm, 0) == check_against(env, am, pm, i as int),
                            decreases arguments.len() - i,
                        {
                            proof {
                                assert(decreases_to!(*expr => *arguments));
                                assert(decreases_to!(*arguments => arguments[i as int]));
                            }
                            assert(am[i as int] == arguments[i as int].model());
                            assert(pm[i as int] == parameters[i as int].model());
                            let at = match self.check_expression(&arguments[i]) {
                                Err(e) => return Err(e),
                                Ok(t) => t,
                            };
                            if !types_compatible(&at, &parameters[i]) {
                                return Err(TypeError::Mismatch { expected: parameters[i].copy(), actual: at });
                            }
                            i = i + 1;
                        }
                        Ok(*return_type)
                    },
                    _ => Err(TypeError::NotAFunction(name.clone())),
                }
            },
            Expression::TypedValue { type_tag, value } => {
                let expected = parse_type_name(type_tag.as_str());
                if let Expression::Identifier(_) = &**value {
                    assert(value.model() is Identifier);
                    return Ok(expected);
                }
                let vt = match self.check_expression(value) {
                    Err(e) => return Err(e),
                    Ok(t) => t,
                };
                if !types_compatible(&vt, &expected) {
                    return Err(TypeError::Mismatch { expected, actual: vt });
                }
                Ok(expected)
            },
            Expression::BinaryOperation { left, operator, right } => {
                match self.check_expression(left) {
                    Err(e) => return Err(e),
                    Ok(_) => {},
                }
                match self.check_expression(right) {
                    Err(e) => return Err(e),
                    Ok(_) => {},
                }
                if str_eq(operator.as_str(), "is") || str_eq(operator.as_str(), "is not") {
                    Ok(Type::Boolean)
                } else {
                    Err(TypeError::UnknownOperator(operator.clone()))
                }
            },
        }
    }
}

} // verus!
