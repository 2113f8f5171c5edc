use vstd::prelude::*;
use crate::lexer::{token_views, SToken, Token};

verus! {

broadcast use vstd::std_specs::vec::group_vec_axioms;

#[derive(Debug)]
pub enum Expression {
    StringLiteral(String),
    IntegerLiteral(i64),
    Identifier(String),
    FunctionCall { name: String, arguments: Vec<Expression> },
    TypedValue { type_tag: String, value: Box<Expression> },
    BinaryOperation { left: Box<Expression>, operator: String, right: Box<Expression> },
}

pub ghost enum SExpr {
    StringLiteral(Seq<char>),
    IntegerLiteral(i64),
    Identifier(Seq<char>),
    FunctionCall(Seq<char>, Seq<SExpr>),
    TypedValue(Seq<char>, Box<SExpr>),
    BinaryOperation(Box<SExpr>, Seq<char>, Box<SExpr>),
}

impl Expression {
    /// The expression's mathematical model.
    pub open spec fn model(&self) -> SExpr
        decreases self,
    {
        match self {
            Expression::StringLiteral(s) => SExpr::StringLiteral(s@),
            Expression::IntegerLiteral(i) => SExpr::IntegerLiteral(*i),
            Expression::Identifier(s) => SExpr::Identifier(s@),
            Expression::FunctionCall { name, arguments } => SExpr::FunctionCall(
                name@,
                Seq::new(arguments.len() as nat, |i: int|
                    if 0 <= i < arguments.len() {
                        arguments[i].model()
                    } else {
                        SExpr::IntegerLiteral(0)
                    },),
            ),
            Expression::TypedValue { type_tag, value } => SExpr::TypedValue(
                type_tag@,
                Box::new(value.model()),
            ),
            Expression::BinaryOperation { left, operator, right } => SExpr::BinaryOperation(
                Box::new(left.model()),
                operator@,
                Box::new(right.model()),
            ),
        }
    }
}

#[derive(Debug)]
pub enum Statement {
    Expression(Expression),
    FunctionDeclaration { name: String, parameters: Vec<Parameter>, body: Vec<Statement> },
    IfStatement { condition: Expression, body: Vec<Statement> },
    Comment(String),
}

#[derive(Debug)]
pub struct Parameter {
    pub name: String,
    pub type_tag: String,
}

#[derive(Debug)]
pub struct Program {
    pub statements: Vec<Statement>,
}

/// A parameter's model: its name and its declared type name.
pub ghost struct SParam {
    pub name: Seq<char>,
    pub type_tag: Seq<char>,
}

pub ghost enum SStmt {
    Expr(SExpr),
    FunctionDeclaration(Seq<char>, Seq<SParam>, Seq<SStmt>),
    IfStatement(SExpr, Seq<SStmt>),
    Comment(Seq<char>),
}

impl Parameter {
    pub open spec fn model(&self) -> SParam {
        SParam { name: self.name@, type_tag: self.type_tag@ }
    }

    pub fn copy(&self) -> (r: Parameter)
        ensures
            r.model() == self.model(),
    {
        Parameter { name: self.name.clone(), type_tag: self.type_tag.clone() }
    }
}

pub open spec fn params_model(v: Seq<Parameter>) -> Seq<SParam> {
    v.map_values(|p: Parameter| p.model())
}

impl Statement {
    /// The statement's mathematical model.
    pub open spec fn model(&self) -> SStmt
        decreases self,
    {
        match self {
            Statement::Expression(e) => SStmt::Expr(e.model()),
            Statement::FunctionDeclaration { name, parameters, body } => SStmt::FunctionDeclaration(
                name@,
                params_model(parameters@),
                Seq::new(
                    body.len() as nat,
                    |i: int|
                        if 0 <= i < body.len() {
                            body[i].model()
                        } else {
                            SStmt::Comment(Seq::empty())
                        },
                ),
            ),
            Statement::IfStatement { condition, body } => SStmt::IfStatement(
                condition.model(),
                Seq::new(
                    body.len() as nat,
                    |i: int|
                        if 0 <= i < body.len() {
                            body[i].model()
                        } else {
                            SStmt::Comment(Seq::empty())
                        },
                ),
            ),
            Statement::Comment(c) => SStmt::Comment(c@),
        }
    }
}

pub open spec fn exprs_model(v: Seq<Expression>) -> Seq<SExpr> {
    v.map_values(|e: Expression| e.model())
}

pub open spec fn stmts_model(v: Seq<Statement>) -> Seq<SStmt> {
    v.map_values(|s: Statement| s.model())
}

impl Program {
    pub open spec fn model(&self) -> Seq<SStmt> {
        stmts_model(self.statements@)
    }
}

/// The size of an expression: one more than the sizes of its parts.
pub open spec fn expr_size(e: SExpr) -> nat
    decreases e, 0int,
{
    match e {
        SExpr::FunctionCall(_, args) => 1 + exprs_size(args, 0),
        SExpr::TypedValue(_, v) => 1 + expr_size(*v),
        SExpr::BinaryOperation(l, _, r) => 1 + expr_size(*l) + expr_size(*r),
        _ => 1,
    }
}

/// The total size of `args[i..]`.
pub open spec fn exprs_size(args: Seq<SExpr>, i: int) -> nat
    decreases args, args.len() - i,
{
    if i < 0 || i >= args.len() {
        0
    } else {
        expr_size(args[i]) + exprs_size(args, i + 1)
    }
}

/// The size of a statement: one more than the sizes of its parts.
pub open spec fn stmt_size(s: SStmt) -> nat
    decreases s, 0int,
{
    match s {
        SStmt::Expr(e) => 1 + expr_size(e),
        SStmt::FunctionDeclaration(..) => 1,
        SStmt::IfStatement(c, body) => 1 + expr_size(c) + stmts_size(body, 0),
        SStmt::Comment(_) => 1,
    }
}

/// The total size of `ss[i..]`.
pub open spec fn stmts_size(ss: Seq<SStmt>, i: int) -> nat
    decreases ss, ss.len() - i,
{
    if i < 0 || i >= ss.len() {
        0
    } else {
        stmt_size(ss[i]) + stmts_size(ss, i + 1)
    }
}

pub proof fn lemma_sizes_positive(e: SExpr, s: SStmt)
    ensures
        expr_size(e) >= 1,
        stmt_size(s) >= 1,
{
}

/// What a syntax error is about.
#[derive(Debug, Clone, Copy, PartialEq, Eq, Structural)]
pub enum ParseErrorKind {
    ExpectedFunctionName,
    ExpectedParenAfterFunctionName,
    ExpectedParenAfterParameters,
    ExpectedBraceAfterDeclaration,
    ExpectedBraceAfterFunctionBody,
    ExpectedParameterName,
    ExpectedColonAfterParameterName,
    ExpectedTypeName,
    ExpectedCommaBetweenParameters,
    ExpectedBraceAfterCondition,
    ExpectedBraceAfterIfBody,
    ExpectedParenAfterArguments,
    ExpectedBracketAfterTypeName,
    ExpectedBracketAfterTypedValue,
    ExpectedCommaBetweenArguments,
    UnexpectedToken,
    /// A rule succeeded without consuming a token. Every rule consumes what it
    /// parses, so `parse` never reports this (see `lemma_program_never_stalls`).
    NoProgress,
}

/// A syntax error: what was expected, the position of the token found instead, and that token.
#[derive(Debug)]
pub struct ParseError {
    pub kind: ParseErrorKind,
    pub position: usize,
    pub found: Token,
}

/// The result of a parsing rule: a value and the position after it, or an error and its position.
pub type Parsed<T> = Result<(T, int), (ParseErrorKind, int)>;

/// The token at `p`; past the end, the end-of-input token.
pub open spec fn peek(t: Seq<SToken>, p: int) -> SToken {
    if 0 <= p < t.len() {
        t[p]
    } else {
        SToken::EOF
    }
}

/// How many tokens are left from `p` on.
pub open spec fn left(t: Seq<SToken>, p: int) -> int {
    if p < t.len() {
        t.len() - p
    } else {
        0
    }
}

/// `Primary := StrLit | IntLit | True | False | Ident ('(' Args? ')')? | TypeName '[' Expr ']'`
pub open spec fn parse_primary(t: Seq<SToken>, p: int) -> Parsed<SExpr>
    decreases left(t, p), 1int,
{
    match peek(t, p) {
        SToken::StringLiteral(s) => Ok((SExpr::StringLiteral(s), p + 1)),
        SToken::IntegerLiteral(i) => Ok((SExpr::IntegerLiteral(i), p + 1)),
        SToken::Identifier(n) => {
            if peek(t, p + 1) == SToken::LeftParen {
                match parse_arguments(t, p + 2) {
                    Err(e) => Err(e),
                    Ok((args, q)) => {
                        if peek(t, q) == SToken::RightParen {
                            Ok((SExpr::FunctionCall(n, args), q + 1))
                        } else {
                            Err((ParseErrorKind::ExpectedParenAfterArguments, q))
                        }
                    },
                }
            } else {
                Ok((SExpr::Identifier(n), p + 1))
            }
        },
        SToken::TypeString => parse_typed_value(t, p, "String"@),
        SToken::TypeInteger => parse_typed_value(t, p, "Integer"@),
        SToken::TypeTrue => Ok((SExpr::Identifier("True"@), p + 1)),
        SToken::TypeFalse => Ok((SExpr::Identifier("False"@), p + 1)),
        _ => Err((ParseErrorKind::UnexpectedToken, p)),
    }
}

/// `TypeName '[' Expr ']'`, the type name standing at `p`.
pub open spec fn parse_typed_value(t: Seq<SToken>, p: int, tag: Seq<char>) -> Parsed<SExpr>
    decreases left(t, p), 0int,
{
    if p < 0 || p >= t.len() {
        Err((ParseErrorKind::UnexpectedToken, p))
    } else if peek(t, p + 1) != SToken::LeftBracket {
        Err((ParseErrorKind::ExpectedBracketAfterTypeName, p + 1))
    } else {
        match parse_expression(t, p + 2) {
            Err(e) => Err(e),
            Ok((v, q)) => {
                if peek(t, q) == SToken::RightBracket {
                    Ok((SExpr::TypedValue(tag, Box::new(v)), q + 1))
                } else {
                    Err((ParseErrorKind::ExpectedBracketAfterTypedValue, q))
                }
            },
        }
    }
}

/// `Expr := Primary (('is' | 'is not') Primary)?`
pub open spec fn parse_expression(t: Seq<SToken>, p: int) -> Parsed<SExpr>
    decreases left(t, p), 2int,
{
    match parse_primary(t, p) {
        Err(e) => Err(e),
        Ok((l, q)) => {
            if q <= p {
                Err((ParseErrorKind::NoProgress, q))
            } else if peek(t, q) == SToken::Equals || peek(t, q) == SToken::NotEquals {
                let op = if peek(t, q) == SToken::Equals { "is"@ } else { "is not"@ };
                match parse_primary(t, q + 1) {
                    Err(e) => Err(e),
                    Ok((r, q2)) => Ok((SExpr::BinaryOperation(Box::new(l), op, Box::new(r)), q2)),
                }
            } else {
                Ok((l, q))
            }
        },
    }
}

/// `Args?` followed by `)`: the arguments of a call, `(` consumed.
pub open spec fn parse_arguments(t: Seq<SToken>, p: int) -> Parsed<Seq<SExpr>>
    decreases left(t, p), 4int,
{
    if peek(t, p) == SToken::RightParen {
        Ok((Seq::empty(), p))
    } else {
        parse_argument_list(t, p)
    }
}

/// `Args := Expr (',' Expr)*`
pub open spec fn parse_argument_list(t: Seq<SToken>, p: int) -> Parsed<Seq<SExpr>>
    decreases left(t, p), 3int,
{
    match parse_expression(t, p) {
        Err(e) => Err(e),
        Ok((a, q)) => {
            if q <= p {
                Err((ParseErrorKind::NoProgress, q))
            } else if peek(t, q) == SToken::RightParen {
                Ok((seq![a], q))
            } else if peek(t, q) == SToken::Comma {
                match parse_argument_list(t, q + 1) {
                    Err(e) => Err(e),
                    Ok((rest, r)) => Ok((seq![a] + rest, r)),
                }
            } else {
                Err((ParseErrorKind::ExpectedCommaBetweenArguments, q))
            }
        },
    }
}

/// The declared type of a parameter: `String`, `Integer`, `Unknown` or any identifier.
pub open spec fn type_tag_of(tok: SToken) -> Option<Seq<char>> {
    match tok {
        SToken::TypeString => Some("String"@),
        SToken::TypeInteger => Some("Integer"@),
        SToken::TypeUnknown => Some("Unknown"@),
        SToken::Identifier(n) => Some(n),
        _ => None,
    }
}

/// `Params := Ident ':' TypeName (',' Ident ':' TypeName)*`
pub open spec fn parse_parameter_list(t: Seq<SToken>, p: int) -> Parsed<Seq<SParam>>
    decreases left(t, p),
{
    match peek(t, p) {
        SToken::Identifier(n) => {
            if peek(t, p + 1) != SToken::Colon {
                Err((ParseErrorKind::ExpectedColonAfterParameterName, p + 1))
            } else if type_tag_of(peek(t, p + 2)) is None {
                Err((ParseErrorKind::ExpectedTypeName, p + 2))
            } else {
                let param = SParam { name: n, type_tag: type_tag_of(peek(t, p + 2))->0 };
                if peek(t, p + 3) == SToken::RightParen {
                    Ok((seq![param], p + 3))
                } else if peek(t, p + 3) == SToken::Comma {
                    match parse_parameter_list(t, p + 4) {
                        Err(e) => Err(e),
                        Ok((rest, r)) => Ok((seq![param] + rest, r)),
                    }
                } else {
                    Err((ParseErrorKind::ExpectedCommaBetweenParameters, p + 3))
                }
            }
        },
        _ => Err((ParseErrorKind::ExpectedParameterName, p)),
    }
}

/// `Params?` followed by `)`.
pub open spec fn parse_parameters(t: Seq<SToken>, p: int) -> Parsed<Seq<SParam>> {
    if peek(t, p) == SToken::RightParen {
        Ok((Seq::empty(), p))
    } else {
        parse_parameter_list(t, p)
    }
}

/// `Statement*` up to a `}` or the end of input.
pub open spec fn parse_block(t: Seq<SToken>, p: int) -> Parsed<Seq<SStmt>>
    decreases left(t, p), 6int,
{
    if peek(t, p) == SToken::RightBrace || peek(t, p) == SToken::EOF {
        Ok((Seq::empty(), p))
    } else {
        match parse_statement(t, p) {
            Err(e) => Err(e),
            Ok((s, q)) => {
                if q <= p {
                    Err((ParseErrorKind::NoProgress, q))
                } else {
                    match parse_block(t, q) {
                        Err(e) => Err(e),
                        Ok((rest, r)) => Ok((seq![s] + rest, r)),
                    }
                }
            },
        }
    }
}

/// `FuncDecl := 'func' Ident '(' Params? ')' '{' Statement* '}'`
pub open spec fn parse_function_declaration(t: Seq<SToken>, p: int) -> Parsed<SStmt>
    decreases left(t, p), 4int,
{
    if p < 0 || p >= t.len() {
        Err((ParseErrorKind::UnexpectedToken, p))
    } else {
        match peek(t, p + 1) {
            SToken::Identifier(name) => {
                if peek(t, p + 2) != SToken::LeftParen {
                    Err((ParseErrorKind::ExpectedParenAfterFunctionName, p + 2))
                } else {
                    match parse_parameters(t, p + 3) {
                        Err(e) => Err(e),
                        Ok((params, q)) => {
                            if q < p {
                                Err((ParseErrorKind::NoProgress, q))
                            } else if peek(t, q) != SToken::RightParen {
                                Err((ParseErrorKind::ExpectedParenAfterParameters, q))
                            } else if peek(t, q + 1) != SToken::LeftBrace {
                                Err((ParseErrorKind::ExpectedBraceAfterDeclaration, q + 1))
                            } else {
                                match parse_block(t, q + 2) {
                                    Err(e) => Err(e),
                                    Ok((body, r)) => {
                                        if peek(t, r) != SToken::RightBrace {
                                            Err((ParseErrorKind::ExpectedBraceAfterFunctionBody, r))
                                        } else {
                                            Ok(
                                                (
                                                    SStmt::FunctionDeclaration(name, params, body),
                                                    r + 1,
                                                ),
                                            )
                                        }
                                    },
                                }
                            }
                        },
                    }
                }
            },
            _ => Err((ParseErrorKind::ExpectedFunctionName, p + 1)),
        }
    }
}

/// `IfStmt := 'if' Expr '{' Statement* '}'`
pub open spec fn parse_if_statement(t: Seq<SToken>, p: int) -> Parsed<SStmt>
    decreases left(t, p), 4int,
{
    if p < 0 || p >= t.len() {
        Err((ParseErrorKind::UnexpectedToken, p))
    } else {
        match parse_expression(t, p + 1) {
            Err(e) => Err(e),
            Ok((c, q)) => {
                if q < p {
                    Err((ParseErrorKind::NoProgress, q))
                } else if peek(t, q) != SToken::LeftBrace {
                    Err((ParseErrorKind::ExpectedBraceAfterCondition, q))
                } else {
                    match parse_block(t, q + 1) {
                        Err(e) => Err(e),
                        Ok((body, r)) => {
                            if peek(t, r) != SToken::RightBrace {
                                Err((ParseErrorKind::ExpectedBraceAfterIfBody, r))
                            } else {
                                Ok((SStmt::IfStatement(c, body), r + 1))
                            }
                        },
                    }
                }
            },
        }
    }
}

/// `Statement := FuncDecl | IfStmt | Comment | Expr`
pub open spec fn parse_statement(t: Seq<SToken>, p: int) -> Parsed<SStmt>
    decreases left(t, p), 5int,
{
    match peek(t, p) {
        SToken::Func => parse_function_declaration(t, p),
        SToken::If => parse_if_statement(t, p),
        SToken::Comment(c) => Ok((SStmt::Comment(c), p + 1)),
        _ => match parse_expression(t, p) {
            Err(e) => Err(e),
            Ok((e, q)) => Ok((SStmt::Expr(e), q)),
        },
    }
}

/// `Program := Statement*`, up to the end of input.
pub open spec fn parse_program(t: Seq<SToken>, p: int) -> Result<Seq<SStmt>, (ParseErrorKind, int)>
    decreases left(t, p),
{
    if peek(t, p) == SToken::EOF {
        Ok(Seq::empty())
    } else {
        match parse_statement(t, p) {
            Err(e) => Err(e),
            Ok((s, q)) => {
                if q <= p {
                    Err((ParseErrorKind::NoProgress, q))
                } else {
                    match parse_program(t, q) {
                        Err(e) => Err(e),
                        Ok(rest) => Ok(seq![s] + rest),
                    }
                }
            },
        }
    }
}

/// The model of a call, stated over the models of its parts.
pub proof fn lemma_call_model(e: &Expression)
    requires
        e is FunctionCall,
    ensures
        e.model() == SExpr::FunctionCall(
            e->FunctionCall_name@,
            exprs_model(e->FunctionCall_arguments@),
        ),
{
    let args = e->FunctionCall_arguments;
    assert(e.model()->FunctionCall_1 =~= exprs_model(args@));
}

/// The model of a statement, stated over the models of its parts.
pub proof fn lemma_statement_model(st: &Statement)
    ensures
        match st {
            Statement::FunctionDeclaration { name, parameters, body } => st.model()
                == SStmt::FunctionDeclaration(name@, params_model(parameters@), stmts_model(body@)),
            Statement::IfStatement { condition, body } => st.model() == SStmt::IfStatement(
                condition.model(),
                stmts_model(body@),
            ),
            _ => true,
        },
{
    match st {
        Statement::FunctionDeclaration { name, parameters, body } => {
            assert(st.model()->FunctionDeclaration_2 =~= stmts_model(body@));
        },
        Statement::IfStatement { condition, body } => {
            assert(st.model()->IfStatement_1 =~= stmts_model(body@));
        },
        _ => {},
    }
}

impl Expression {
    /// A deep copy of the expression, equal in its model.
    pub fn copy(&self) -> (r: Expression)
        ensures
            r.model() == self.model(),
        decreases self,
    {
        match self {
            Expression::StringLiteral(s) => Expression::StringLiteral(s.clone()),
            Expression::IntegerLiteral(i) => Expression::IntegerLiteral(*i),
            Expression::Identifier(s) => Expression::Identifier(s.clone()),
            Expression::FunctionCall { name, arguments } => {
                let mut args: Vec<Expression> = Vec::new();
                let mut i: usize = 0;
                while i < arguments.len()
                    invariant
                        i <= arguments.len(),
                        exprs_model(args@) == exprs_model(arguments@).subrange(0, i as int),
                        *self is FunctionCall,
                        self->FunctionCall_arguments == *arguments,
                    decreases arguments.len() - i,
                {
                    proof {
                        assert(decreases_to!(*self => *arguments));
                        assert(decreases_to!(*arguments => arguments[i as int]));
                    }
                    let ghost before = exprs_model(args@);
                    let a = arguments[i].copy();
                    let ghost am = a.model();
                    args.push(a);
                    assert(exprs_model(args@) =~= before.push(am));
                    assert(exprs_model(args@) =~= exprs_model(arguments@).subrange(0, i + 1));
                    i = i + 1;
                }
                assert(exprs_model(args@) =~= exprs_model(arguments@));
                let r = Expression::FunctionCall { name: name.clone(), arguments: args };
                proof {
                    lemma_call_model(&r);
                    lemma_call_model(self);
                }
                r
            },
            Expression::TypedValue { type_tag, value } => Expression::TypedValue {
                type_tag: type_tag.clone(),
                value: Box::new(value.copy()),
            },
            Expression::BinaryOperation { left, operator, right } => Expression::BinaryOperation {
                left: Box::new(left.copy()),
                operator: operator.clone(),
                right: Box::new(right.copy()),
            },
        }
    }
}

/// A copy of a list of parameters, equal in its model.
pub fn copy_parameters(ps: &Vec<Parameter>) -> (r: Vec<Parameter>)
    ensures
        params_model(r@) == params_model(ps@),
{
    let mut v: Vec<Parameter> = Vec::new();
    let mut i: usize = 0;
    while i < ps.len()
        invariant
            i <= ps.len(),
            params_model(v@) == params_model(ps@).subrange(0, i as int),
        decreases ps.len() - i,
    {
        let ghost before = params_model(v@);
        let p = ps[i].copy();
        let ghost pm = p.model();
        v.push(p);
        assert(params_model(v@) =~= before.push(pm));
        assert(params_model(v@) =~= params_model(ps@).subrange(0, i + 1));
        i = i + 1;
    }
    assert(params_model(v@) =~= params_model(ps@));
    v
}

impl Statement {
    /// A deep copy of the statement, equal in its model.
    pub fn copy(&self) -> (r: Statement)
        ensures
            r.model() == self.model(),
        decreases self, 0int,
    {
        proof {
            lemma_statement_model(self);
        }
        match self {
            Statement::Expression(e) => Statement::Expression(e.copy()),
            Statement::FunctionDeclaration { name, parameters, body } => {
                proof {
                    assert(decreases_to!(*self => *body));
                }
                let r = Statement::FunctionDeclaration {
                    name: name.clone(),
                    parameters: copy_parameters(parameters),
                    body: copy_statements(body),
                };
                proof {
                    lemma_statement_model(&r);
                }
                r
            },
            Statement::IfStatement { condition, body } => {
                proof {
                    assert(decreases_to!(*self => *body));
                }
                let r = Statement::IfStatement { condition: condition.copy(), body: copy_statements(body) };
                proof {
                    lemma_statement_model(&r);
                }
                r
            },
            Statement::Comment(c) => Statement::Comment(c.clone()),
        }
    }
}

/// A deep copy of a list of statements, equal in its model.
pub fn copy_statements(ss: &Vec<Statement>) -> (r: Vec<Statement>)
    ensures
        stmts_model(r@) == stmts_model(ss@),
    decreases ss, 1int,
{
    let mut v: Vec<Statement> = Vec::new();
    let mut i: usize = 0;
    while i < ss.len()
        invariant
            i <= ss.len(),
            stmts_model(v@) == stmts_model(ss@).subrange(0, i as int),
        decreases ss.len() - i,
    {
        proof {
            assert(decreases_to!(*ss => ss[i as int]));
        }
        let ghost before = stmts_model(v@);
        let s = ss[i].copy();
        let ghost sm = s.model();
        v.push(s);
        assert(stmts_model(v@) =~= before.push(sm));
        assert(stmts_model(v@) =~= stmts_model(ss@).subrange(0, i + 1));
        i = i + 1;
    }
    assert(stmts_model(v@) =~= stmts_model(ss@));
    v
}

/// A rule's result moves past its start (strictly, or not backwards) when it
/// succeeds, and never reports a lack of progress when it fails.
pub open spec fn advances<T>(r: Parsed<T>, p: int, strict: bool) -> bool {
    match r {
        Ok((_, q)) => if strict {
            q > p
        } else {
            q >= p
        },
        Err((k, _)) => k != ParseErrorKind::NoProgress,
    }
}

pub proof fn lemma_primary_advances(t: Seq<SToken>, p: int)
    ensures
        advances(parse_primary(t, p), p, true),
    decreases left(t, p), 1int,
{
    match peek(t, p) {
        SToken::Identifier(n) => {
            if peek(t, p + 1) == SToken::LeftParen {
                lemma_arguments_advance(t, p + 2);
            }
        },
        SToken::TypeString => lemma_typed_value_advances(t, p, "String"@),
        SToken::TypeInteger => lemma_typed_value_advances(t, p, "Integer"@),
        _ => {},
    }
}

pub proof fn lemma_typed_value_advances(t: Seq<SToken>, p: int, tag: Seq<char>)
    ensures
        advances(parse_typed_value(t, p, tag), p, true),
    decreases left(t, p), 0int,
{
    if 0 <= p < t.len() && peek(t, p + 1) == SToken::LeftBracket {
        lemma_expression_advances(t, p + 2);
    }
}

pub proof fn lemma_expression_advances(t: Seq<SToken>, p: int)
    ensures
        advances(parse_expression(t, p), p, true),
    decreases left(t, p), 2int,
{
    lemma_primary_advances(t, p);
    if let Ok((l, q)) = parse_primary(t, p) {
        if q > p {
            lemma_primary_advances(t, q + 1);
        }
    }
}

pub proof fn lemma_arguments_advance(t: Seq<SToken>, p: int)
    ensures
        advances(parse_arguments(t, p), p, false),
    decreases left(t, p), 4int,
{
    if peek(t, p) != SToken::RightParen {
        lemma_argument_list_advances(t, p);
    }
}

pub proof fn lemma_argument_list_advances(t: Seq<SToken>, p: int)
    ensures
        advances(parse_argument_list(t, p), p, true),
    decreases left(t, p), 3int,
{
    lemma_expression_advances(t, p);
    if let Ok((a, q)) = parse_expression(t, p) {
        if q > p && peek(t, q) == SToken::Comma {
            lemma_argument_list_advances(t, q + 1);
        }
    }
}

pub proof fn lemma_parameter_list_advances(t: Seq<SToken>, p: int)
    ensures
        advances(parse_parameter_list(t, p), p, true),
    decreases left(t, p),
{
    if peek(t, p) is Identifier && peek(t, p + 1) == SToken::Colon && type_tag_of(peek(t, p + 2)) is Some
        && peek(t, p + 3) == SToken::Comma {
        lemma_parameter_list_advances(t, p + 4);
    }
}

pub proof fn lemma_block_advances(t: Seq<SToken>, p: int)
    ensures
        advances(parse_block(t, p), p, false),
    decreases left(t, p), 6int,
{
    if peek(t, p) != SToken::RightBrace && peek(t, p) != SToken::EOF {
        lemma_statement_advances(t, p);
        if let Ok((s, q)) = parse_statement(t, p) {
            if q > p {
                lemma_block_advances(t, q);
            }
        }
    }
}

pub proof fn lemma_function_declaration_advances(t: Seq<SToken>, p: int)
    ensures
        advances(parse_function_declaration(t, p), p, true),
    decreases left(t, p), 4int,
{
    if 0 <= p < t.len() && peek(t, p + 1) is Identifier && peek(t, p + 2) == SToken::LeftParen {
        if peek(t, p + 3) != SToken::RightParen {
            lemma_parameter_list_advances(t, p + 3);
        }
        if let Ok((params, q)) = parse_parameters(t, p + 3) {
            if q >= p && peek(t, q) == SToken::RightParen && peek(t, q + 1) == SToken::LeftBrace {
                lemma_block_advances(t, q + 2);
            }
        }
    }
}

pub proof fn lemma_if_statement_advances(t: Seq<SToken>, p: int)
    ensures
        advances(parse_if_statement(t, p), p, true),
    decreases left(t, p), 4int,
{
    if 0 <= p < t.len() {
        lemma_expression_advances(t, p + 1);
        if let Ok((c, q)) = parse_expression(t, p + 1) {
            if q >= p && peek(t, q) == SToken::LeftBrace {
                lemma_block_advances(t, q + 1);
            }
        }
    }
}

pub proof fn lemma_statement_advances(t: Seq<SToken>, p: int)
    ensures
        advances(parse_statement(t, p), p, true),
    decreases left(t, p), 5int,
{
    match peek(t, p) {
        SToken::Func => lemma_function_declaration_advances(t, p),
        SToken::If => lemma_if_statement_advances(t, p),
        SToken::Comment(_) => {},
        _ => lemma_expression_advances(t, p),
    }
}

/// Every rule consumes what it parses, so parsing never stops for want of progress.
pub proof fn lemma_program_never_stalls(t: Seq<SToken>, p: int)
    ensures
        parse_program(t, p) is Err ==> parse_program(t, p)->Err_0.0 != ParseErrorKind::NoProgress,
    decreases left(t, p),
{
    if peek(t, p) != SToken::EOF {
        lemma_statement_advances(t, p);
        if let Ok((s, q)) = parse_statement(t, p) {
            lemma_program_never_stalls(t, q);
        }
    }
}

/// Whether an executable parse result agrees with the rule's model: the value and
/// the position after it, or the error with its position and the token found there.
pub open spec fn outcome<T, S>(
    r: Result<T, ParseError>,
    s: Parsed<S>,
    pos: int,
    t: Seq<SToken>,
    m: spec_fn(T) -> S,
) -> bool {
    match s {
        Ok((v, q)) => r is Ok && m(r->Ok_0) == v && pos == q,
        Err((k, q)) => r is Err && r->Err_0.kind == k && r->Err_0.position == q
            && r->Err_0.found@ == peek(t, q),
    }
}

/// Turns a sequence of tokens into a program by recursive descent.
pub struct Parser {
    tokens: Vec<Token>,
    current_position: usize,
}

impl Parser {
    /// The tokens being parsed.
    pub closed spec fn token_models(&self) -> Seq<SToken> {
        token_views(self.tokens@)
    }

    /// The position of the next token.
    pub closed spec fn position(&self) -> int {
        self.current_position as int
    }

    pub closed spec fn wf(&self) -> bool {
        self.current_position <= self.tokens.len()
    }

    pub closed spec fn left(&self) -> int {
        left(self.token_models(), self.position())
    }

    pub fn new(tokens: Vec<Token>) -> (r: Parser)
        ensures
            r.wf(),
            r.token_models() == token_views(tokens@),
            r.position() == 0,
    {
        Parser { tokens, current_position: 0 }
    }

    /// The token at `pos`; past the end, the end-of-input token.
    fn token_at(&self, pos: usize) -> (r: Token)
        ensures
            r@ == peek(self.token_models(), pos as int),
    {
        if pos < self.tokens.len() {
            self.tokens[pos].copy()
        } else {
            Token::EOF
        }
    }

    fn peek_token(&self) -> (r: Token)
        ensures
            r@ == peek(self.token_models(), self.position()),
    {
        self.token_at(self.current_position)
    }

    /// Whether the token at `pos` is `kind`.
    fn check_at(&self, pos: usize, kind: &Token) -> (r: bool)
        ensures
            r == (peek(self.token_models(), pos as int) == kind@),
    {
        let tok = self.token_at(pos);
        tok.same(kind)
    }

    fn check(&self, kind: &Token) -> (r: bool)
        ensures
            r == (peek(self.token_models(), self.position()) == kind@),
    {
        self.check_at(self.current_position, kind)
    }

    fn is_at_end(&self) -> (r: bool)
        ensures
            r == (peek(self.token_models(), self.position()) == SToken::EOF),
    {
        self.check(&Token::EOF)
    }

    fn error(&self, kind: ParseErrorKind, pos: usize) -> (r: ParseError)
        ensures
            r.kind == kind,
            r.position == pos,
            r.found@ == peek(self.token_models(), pos as int),
    {
        ParseError { kind, position: pos, found: self.token_at(pos) }
    }

    proof fn lemma_peek_real(&self, pos: int)
        requires
            peek(self.token_models(), pos) != SToken::EOF,
        ensures
            0 <= pos < self.tokens.len(),
    {
    }

    fn parse_primary_expression(&mut self) -> (r: Result<Expression, ParseError>)
        requires
            old(self).wf(),
        ensures
            final(self).wf(),
            final(self).token_models() == old(self).token_models(),
            outcome(
                r,
                parse_primary(old(self).token_models(), old(self).position()),
                final(self).position(),
                old(self).token_models(),
                |e: Expression| e.model(),
            ),
        decreases old(self).left(), 1int,
    {
        let ghost t = self.token_models();
        let p = self.current_position;
        let tok = self.peek_token();
        match tok {
            Token::StringLiteral(s) => {
                self.current_position = p + 1;
                Ok(Expression::StringLiteral(s))
            },
            Token::IntegerLiteral(i) => {
                self.current_position = p + 1;
                Ok(Expression::IntegerLiteral(i))
            },
            Token::Identifier(name) => {
                if self.check_at(p + 1, &Token::LeftParen) {
                    proof {
                        self.lemma_peek_real(p + 1);
                    }
                    self.current_position = p + 2;
                    let arguments = match self.parse_arguments() {
                        Ok(a) => a,
                        Err(e) => return Err(e),
                    };
                    let q = self.current_position;
                    if self.check(&Token::RightParen) {
                        proof {
                            self.lemma_peek_real(q as int);
                        }
                        self.current_position = q + 1;
                        let r = Expression::FunctionCall { name, arguments };
                        proof {
                            lemma_call_model(&r);
                        }
                        Ok(r)
                    } else {
                        Err(self.error(ParseErrorKind::ExpectedParenAfterArguments, q))
                    }
                } else {
                    self.current_position = p + 1;
                    Ok(Expression::Identifier(name))
                }
            },
            Token::TypeString => self.parse_typed_value("String".to_owned()),
            Token::TypeInteger => self.parse_typed_value("Integer".to_owned()),
            Token::TypeTrue => {
                self.current_position = p + 1;
                let r = Expression::Identifier("True".to_owned());
                assert(r.model() == SExpr::Identifier("True"@));
                Ok(r)
            },
            Token::TypeFalse => {
                self.current_position = p + 1;
                let r = Expression::Identifier("False".to_owned());
                assert(r.model() == SExpr::Identifier("False"@));
                Ok(r)
            },
            _ => Err(self.error(ParseErrorKind::UnexpectedToken, p)),
        }
    }

    fn parse_typed_value(&mut self, tag: String) -> (r: Result<Expression, ParseError>)
        requires
            old(self).wf(),
        ensures
            final(self).wf(),
            final(self).token_models() == old(self).token_models(),
            outcome(
                r,
                parse_typed_value(old(self).token_models(), old(self).position(), tag@),
                final(self).position(),
                old(self).token_models(),
                |e: Expression| e.model(),
            ),
        decreases old(self).left(), 0int,
    {
        let p = self.current_position;
        if p >= self.tokens.len() {
            return Err(self.error(ParseErrorKind::UnexpectedToken, p));
        }
        if !self.check_at(p + 1, &Token::LeftBracket) {
            return Err(self.error(ParseErrorKind::ExpectedBracketAfterTypeName, p + 1));
        }
        proof {
            self.lemma_peek_real(p + 1);
        }
        self.current_position = p + 2;
        let value = match self.parse_expression() {
            Ok(v) => v,
            Err(e) => return Err(e),
        };
        let q = self.current_position;
        if self.check(&Token::RightBracket) {
            proof {
                self.lemma_peek_real(q as int);
            }
            self.current_position = q + 1;
            Ok(Expression::TypedValue { type_tag: tag, value: Box::new(value) })
        } else {
            Err(self.error(ParseErrorKind::ExpectedBracketAfterTypedValue, q))
        }
    }

    fn parse_expression(&mut self) -> (r: Result<Expression, ParseError>)
        requires
            old(self).wf(),
        ensures
            final(self).wf(),
            final(self).token_models() == old(self).token_models(),
            outcome(
                r,
                parse_expression(old(self).token_models(), old(self).position()),
                final(self).position(),
                old(self).token_models(),
                |e: Expression| e.model(),
            ),
        decreases old(self).left(), 2int,
    {
        let p = self.current_position;
        let left = match self.parse_primary_expression() {
            Ok(e) => e,
            Err(e) => return Err(e),
        };
        let q = self.current_position;
        if q <= p {
            return Err(self.error(ParseErrorKind::NoProgress, q));
        }
        let is_eq = self.check(&Token::Equals);
        if is_eq || self.check(&Token::NotEquals) {
            proof {
                self.lemma_peek_real(q as int);
            }
            self.current_position = q + 1;
            let right = match self.parse_primary_expression() {
                Ok(e) => e,
                Err(e) => return Err(e),
            };
            let operator = if is_eq {
                "is".to_owned()
            } else {
                "is not".to_owned()
            };
            Ok(
                Expression::BinaryOperation {
                    left: Box::new(left),
                    operator,
                    right: Box::new(right),
                },
            )
        } else {
            Ok(left)
        }
    }

    fn parse_arguments(&mut self) -> (r: Result<Vec<Expression>, ParseError>)
        requires
            old(self).wf(),
        ensures
            final(self).wf(),
            final(self).token_models() == old(self).token_models(),
            outcome(
                r,
                parse_arguments(old(self).token_models(), old(self).position()),
                final(self).position(),
                old(self).token_models(),
                |v: Vec<Expression>| exprs_model(v@),
            ),
        decreases old(self).left(), 4int,
    {
        if self.check(&Token::RightParen) {
            let v: Vec<Expression> = Vec::new();
            assert(exprs_model(v@) =~= Seq::empty());
            return Ok(v);
        }
        self.parse_argument_list()
    }

    fn parse_argument_list(&mut self) -> (r: Result<Vec<Expression>, ParseError>)
        requires
            old(self).wf(),
        ensures
            final(self).wf(),
            final(self).token_models() == old(self).token_models(),
            outcome(
                r,
                parse_argument_list(old(self).token_models(), old(self).position()),
                final(self).position(),
                old(self).token_models(),
                |v: Vec<Expression>| exprs_model(v@),
            ),
        decreases old(self).left(), 3int,
    {
        let p = self.current_position;
        let first = match self.parse_expression() {
            Ok(e) => e,
            Err(e) => return Err(e),
        };
        let q = self.current_position;
        if q <= p {
            return Err(self.error(ParseErrorKind::NoProgress, q));
        }
        let ghost fm = first.model();
        if self.check(&Token::RightParen) {
            let mut v: Vec<Expression> = Vec::new();
            v.push(first);
            assert(exprs_model(v@) =~= seq![fm]);
            return Ok(v);
        }
        if !self.check(&Token::Comma) {
            return Err(self.error(ParseErrorKind::ExpectedCommaBetweenArguments, q));
        }
        proof {
            self.lemma_peek_real(q as int);
        }
        self.current_position = q + 1;
        let rest = match self.parse_argument_list() {
            Ok(v) => v,
            Err(e) => return Err(e),
        };
        let mut v: Vec<Expression> = Vec::new();
        v.push(first);
        let mut rest = rest;
        let ghost rm = exprs_model(rest@);
        v.append(&mut rest);
        assert(exprs_model(v@) =~= seq![fm] + rm);
        Ok(v)
    }

    fn parse_type_tag(&self, pos: usize) -> (r: Option<String>)
        ensures
            r is None <==> type_tag_of(peek(self.token_models(), pos as int)) is None,
            r is Some ==> r->0@ == type_tag_of(peek(self.token_models(), pos as int))->0,
    {
        match self.token_at(pos) {
            Token::TypeString => Some("String".to_owned()),
            Token::TypeInteger => Some("Integer".to_owned()),
            Token::TypeUnknown => Some("Unknown".to_owned()),
            Token::Identifier(n) => Some(n),
            _ => None,
        }
    }

    fn parse_parameter_list(&mut self) -> (r: Result<Vec<Parameter>, ParseError>)
        requires
            old(self).wf(),
        ensures
            final(self).wf(),
            final(self).token_models() == old(self).token_models(),
            outcome(
                r,
                parse_parameter_list(old(self).token_models(), old(self).position()),
                final(self).position(),
                old(self).token_models(),
                |v: Vec<Parameter>| params_model(v@),
            ),
        decreases old(self).left(),
    {
        let p = self.current_position;
        let name = match self.token_at(p) {
            Token::Identifier(n) => n,
            _ => return Err(self.error(ParseErrorKind::ExpectedParameterName, p)),
        };
        proof {
            self.lemma_peek_real(p as int);
        }
        if !self.check_at(p + 1, &Token::Colon) {
            return Err(self.error(ParseErrorKind::ExpectedColonAfterParameterName, p + 1));
        }
        proof {
            self.lemma_peek_real(p + 1);
        }
        let type_tag = match self.parse_type_tag(p + 2) {
            Some(t) => t,
            None => return Err(self.error(ParseErrorKind::ExpectedTypeName, p + 2)),
        };
        proof {
            self.lemma_peek_real(p + 2);
        }
        let param = Parameter { name, type_tag };
        let ghost pm = param.model();
        let mut v: Vec<Parameter> = Vec::new();
        v.push(param);
        if self.check_at(p + 3, &Token::RightParen) {
            self.current_position = p + 3;
            assert(params_model(v@) =~= seq![pm]);
            return Ok(v);
        }
        if !self.check_at(p + 3, &Token::Comma) {
            return Err(self.error(ParseErrorKind::ExpectedCommaBetweenParameters, p + 3));
        }
        proof {
            self.lemma_peek_real(p + 3);
        }
        self.current_position = p + 4;
        let mut rest = match self.parse_parameter_list() {
            Ok(v) => v,
            Err(e) => return Err(e),
        };
        let ghost rm = params_model(rest@);
        v.append(&mut rest);
        assert(params_model(v@) =~= seq![pm] + rm);
        Ok(v)
    }

    fn parse_parameters(&mut self) -> (r: Result<Vec<Parameter>, ParseError>)
        requires
            old(self).wf(),
        ensures
            final(self).wf(),
            final(self).token_models() == old(self).token_models(),
            outcome(
                r,
                parse_parameters(old(self).token_models(), old(self).position()),
                final(self).position(),
                old(self).token_models(),
                |v: Vec<Parameter>| params_model(v@),
            ),
    {
        if self.check(&Token::RightParen) {
            let v: Vec<Parameter> = Vec::new();
            assert(params_model(v@) =~= Seq::empty());
            return Ok(v);
        }
        self.parse_parameter_list()
    }

    fn parse_block(&mut self) -> (r: Result<Vec<Statement>, ParseError>)
        requires
            old(self).wf(),
        ensures
            final(self).wf(),
            final(self).token_models() == old(self).token_models(),
            outcome(
                r,
                parse_block(old(self).token_models(), old(self).position()),
                final(self).position(),
                old(self).token_models(),
                |v: Vec<Statement>| stmts_model(v@),
            ),
        decreases old(self).left(), 6int,
    {
        let p = self.current_position;
        if self.check(&Token::RightBrace) || self.is_at_end() {
            let v: Vec<Statement> = Vec::new();
            assert(stmts_model(v@) =~= Seq::empty());
            return Ok(v);
        }
        let first = match self.parse_statement() {
            Ok(s) => s,
            Err(e) => return Err(e),
        };
        let q = self.current_position;
        if q <= p {
            return Err(self.error(ParseErrorKind::NoProgress, q));
        }
        let mut rest = match self.parse_block() {
            Ok(v) => v,
            Err(e) => return Err(e),
        };
        let ghost fm = first.model();
        let ghost rm = stmts_model(rest@);
        let mut v: Vec<Statement> = Vec::new();
        v.push(first);
        v.append(&mut rest);
        assert(stmts_model(v@) =~= seq![fm] + rm);
        Ok(v)
    }

    fn parse_function_declaration(&mut self) -> (r: Result<Statement, ParseError>)
        requires
            old(self).wf(),
        ensures
            final(self).wf(),
            final(self).token_models() == old(self).token_models(),
            outcome(
                r,
                parse_function_declaration(old(self).token_models(), old(self).position()),
                final(self).position(),
                old(self).token_models(),
                |s: Statement| s.model(),
            ),
        decreases old(self).left(), 4int,
    {
        let p = self.current_position;
        if p >= self.tokens.len() {
            return Err(self.error(ParseErrorKind::UnexpectedToken, p));
        }
        let name = match self.token_at(p + 1) {
            Token::Identifier(n) => n,
            _ => return Err(self.error(ParseErrorKind::ExpectedFunctionName, p + 1)),
        };
        proof {
            self.lemma_peek_real(p + 1);
        }
        if !self.check_at(p + 2, &Token::LeftParen) {
            return Err(self.error(ParseErrorKind::ExpectedParenAfterFunctionName, p + 2));
        }
        proof {
            self.lemma_peek_real(p + 2);
        }
        self.current_position = p + 3;
        let parameters = match self.parse_parameters() {
            Ok(v) => v,
            Err(e) => return Err(e),
        };
        let q = self.current_position;
        if q < p {
            return Err(self.error(ParseErrorKind::NoProgress, q));
        }
        if !self.check(&Token::RightParen) {
            return Err(self.error(ParseErrorKind::ExpectedParenAfterParameters, q));
        }
        proof {
            self.lemma_peek_real(q as int);
        }
        if !self.check_at(q + 1, &Token::LeftBrace) {
            return Err(self.error(ParseErrorKind::ExpectedBraceAfterDeclaration, q + 1));
        }
        proof {
            self.lemma_peek_real(q + 1);
        }
        self.current_position = q + 2;
        let body = match self.parse_block() {
            Ok(v) => v,
            Err(e) => return Err(e),
        };
        let rp = self.current_position;
        if !self.check(&Token::RightBrace) {
            return Err(self.error(ParseErrorKind::ExpectedBraceAfterFunctionBody, rp));
        }
        proof {
            self.lemma_peek_real(rp as int);
        }
        self.current_position = rp + 1;
        let r = Statement::FunctionDeclaration { name, parameters, body };
        proof {
            lemma_statement_model(&r);
        }
        Ok(r)
    }

    fn parse_if_statement(&mut self) -> (r: Result<Statement, ParseError>)
        requires
            old(self).wf(),
        ensures
            final(self).wf(),
            final(self).token_models() == old(self).token_models(),
            outcome(
                r,
                parse_if_statement(old(self).token_models(), old(self).position()),
                final(self).position(),
                old(self).token_models(),
                |s: Statement| s.model(),
            ),
        decreases old(self).left(), 4int,
    {
        let p = self.current_position;
        if p >= self.tokens.len() {
            return Err(self.error(ParseErrorKind::UnexpectedToken, p));
        }
        self.current_position = p + 1;
        let condition = match self.parse_expression() {
            Ok(e) => e,
            Err(e) => return Err(e),
        };
        let q = self.current_position;
        if q < p {
            return Err(self.error(ParseErrorKind::NoProgress, q));
        }
        if !self.check(&Token::LeftBrace) {
            return Err(self.error(ParseErrorKind::ExpectedBraceAfterCondition, q));
        }
        proof {
            self.lemma_peek_real(q as int);
        }
        self.current_position = q + 1;
        let body = match self.parse_block() {
            Ok(v) => v,
            Err(e) => return Err(e),
        };
        let rp = self.current_position;
        if !self.check(&Token::RightBrace) {
            return Err(self.error(ParseErrorKind::ExpectedBraceAfterIfBody, rp));
        }
        proof {
            self.lemma_peek_real(rp as int);
        }
        self.current_position = rp + 1;
        let r = Statement::IfStatement { condition, body };
        proof {
            lemma_statement_model(&r);
        }
        Ok(r)
    }

    fn parse_statement(&mut self) -> (r: Result<Statement, ParseError>)
        requires
            old(self).wf(),
        ensures
            final(self).wf(),
            final(self).token_models() == old(self).token_models(),
            outcome(
                r,
                parse_statement(old(self).token_models(), old(self).position()),
                final(self).position(),
                old(self).token_models(),
                |s: Statement| s.model(),
            ),
        decreases old(self).left(), 5int,
    {
        let p = self.current_position;
        match self.peek_token() {
            Token::Func => self.parse_function_declaration(),
            Token::If => self.parse_if_statement(),
            Token::Comment(c) => {
                proof {
                    self.lemma_peek_real(p as int);
                }
                self.current_position = p + 1;
                Ok(Statement::Comment(c))
            },
            _ => match self.parse_expression() {
                Ok(e) => Ok(Statement::Expression(e)),
                Err(e) => Err(e),
            },
        }
    }

    /// Parses statements up to the end of input; stops at the first syntax error.
    pub fn parse(&mut self) -> (r: Result<Program, ParseError>)
        requires
            old(self).wf(),
        ensures
            final(self).wf(),
            final(self).token_models() == old(self).token_models(),
            match parse_program(old(self).token_models(), old(self).position()) {
                Ok(stmts) => r is Ok && r->Ok_0.model() == stmts,
                Err((k, q)) => r is Err && r->Err_0.kind == k && r->Err_0.position == q
                    && r->Err_0.found@ == peek(old(self).token_models(), q),
            },
            r is Err ==> r->Err_0.kind != ParseErrorKind::NoProgress,
    {
        let ghost t = self.token_models();
        let ghost start = self.position();
        proof {
            lemma_program_never_stalls(t, start);
        }
        let mut statements: Vec<Statement> = Vec::new();
        while !self.is_at_end()
            invariant
                self.wf(),
                self.token_models() == t,
                t == old(self).token_models(),
                start == old(self).position(),
                parse_program(t, start) matches Ok(all) ==> parse_program(t, self.position())
                    matches Ok(rest) && all == stmts_model(statements@) + rest,
                parse_program(t, start) is Err ==> parse_program(t, self.position())
                    == parse_program(t, start),
                parse_program(t, start) is Err ==> parse_program(t, start)->Err_0.0
                    != ParseErrorKind::NoProgress,
            decreases self.left(),
        {
            let p = self.current_position;
            proof {
                lemma_statement_advances(t, p as int);
            }
            let s = match self.parse_statement() {
                Ok(s) => s,
                Err(e) => return Err(e),
            };
            let q = self.current_position;
            if q <= p {
                return Err(self.error(ParseErrorKind::NoProgress, q));
            }
            proof {
                self.lemma_peek_real(p as int);
            }
            let ghost before = stmts_model(statements@);
            statements.push(s);
            assert(stmts_model(statements@) =~= before.push(s.model()));
            assert(parse_program(t, start) matches Ok(all) ==> all =~= stmts_model(statements@)
                + parse_program(t, q as int)->Ok_0);
        }
        assert(parse_program(t, start) matches Ok(all) ==> all =~= stmts_model(statements@));
        Ok(Program { statements })
    }
}

} // verus!
