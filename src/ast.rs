use vstd::prelude::*;

verus! {

/// An arithmetic or conditional expression; each compound node owns its operands.
#[derive(Debug)]
pub enum Expression {
    NumberLiteral(i32),
    VariableReference(String),
    Add(Box<Expression>, Box<Expression>),
    Sub(Box<Expression>, Box<Expression>),
    Mult(Box<Expression>, Box<Expression>),
    Div(Box<Expression>, Box<Expression>),
    Pow(Box<Expression>, Box<Expression>),
    IfElse(Box<Condition>, Box<Expression>, Box<Expression>),
}

/// A comparison; only `lhs < rhs` exists.
#[derive(Debug)]
pub enum Condition {
    LessThan(Expression, Expression),
}

/// One statement of a program body.
#[derive(Debug)]
pub enum Definition {
    Assignment(String, Expression),
    Return(Expression),
}

/// A formal parameter of the program.
#[derive(Debug)]
pub struct Parameter {
    pub id: String,
}

/// A whole program: its identifier, parameters and ordered definitions.
#[derive(Debug)]
pub struct Program {
    pub id: String,
    pub args: Vec<Parameter>,
    pub defs: Vec<Definition>,
}

/// The four binary arithmetic operators.
pub enum Op {
    Add,
    Sub,
    Mult,
    Div,
}

/// Mathematical model of an expression: literals are integers, names are character sequences,
/// and a `LessThan` condition is folded into the conditional node.
pub enum Ex {
    Num(int),
    Var(Seq<char>),
    Bin(Op, Box<Ex>, Box<Ex>),
    Pow(Box<Ex>, Box<Ex>),
    IfLt(Box<Ex>, Box<Ex>, Box<Ex>, Box<Ex>),
}

/// Mathematical model of a definition.
pub enum Def {
    Assign(Seq<char>, Ex),
    Ret(Ex),
}

/// Mathematical model of a program.
pub struct ProgramModel {
    pub id: Seq<char>,
    pub args: Seq<Seq<char>>,
    pub defs: Seq<Def>,
}

impl Expression {
    pub open spec fn model(&self) -> Ex
        decreases self,
    {
        match self {
            Expression::NumberLiteral(k) => Ex::Num(*k as int),
            Expression::VariableReference(s) => Ex::Var(s@),
            Expression::Add(l, r) => Ex::Bin(Op::Add, Box::new(l.model()), Box::new(r.model())),
            Expression::Sub(l, r) => Ex::Bin(Op::Sub, Box::new(l.model()), Box::new(r.model())),
            Expression::Mult(l, r) => Ex::Bin(Op::Mult, Box::new(l.model()), Box::new(r.model())),
            Expression::Div(l, r) => Ex::Bin(Op::Div, Box::new(l.model()), Box::new(r.model())),
            Expression::Pow(b, e) => Ex::Pow(Box::new(b.model()), Box::new(e.model())),
            Expression::IfElse(c, t, f) => match &**c {
                Condition::LessThan(a, b) => Ex::IfLt(
                    Box::new(a.model()),
                    Box::new(b.model()),
                    Box::new(t.model()),
                    Box::new(f.model()),
                ),
            },
        }
    }
}

impl Definition {
    pub open spec fn model(&self) -> Def {
        match self {
            Definition::Assignment(name, e) => Def::Assign(name@, e.model()),
            Definition::Return(e) => Def::Ret(e.model()),
        }
    }
}

/// The models of a sequence of definitions.
pub open spec fn defs_model(ds: Seq<Definition>) -> Seq<Def> {
    ds.map_values(|d: Definition| d.model())
}

impl Program {
    pub open spec fn model(&self) -> ProgramModel {
        ProgramModel {
            id: self.id@,
            args: self.args@.map_values(|p: Parameter| p.id@),
            defs: defs_model(self.defs@),
        }
    }
}

/// A program is well formed when it ends in its only `Return`.
pub open spec fn well_formed_defs(ds: Seq<Def>) -> bool {
    &&& ds.len() >= 1
    &&& ds.last() is Ret
    &&& forall|i: int| 0 <= i < ds.len() - 1 ==> (#[trigger] ds[i]) is Assign
}

} // verus!
