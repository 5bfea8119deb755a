//! Expressions: constants and function applications, with their one-line
//! text form and a column-limited pretty printer.

use vstd::prelude::*;
use vstd::string::*;
use crate::value::{IdGen, Value, value_text};

verus! {

/// Identity of an expression node.
#[derive(Debug, Clone, Copy, PartialEq, Eq, Structural, PartialOrd, Ord, Hash)]
pub struct ExprId(pub u64);

#[derive(Debug)]
pub enum ExprKind {
    Constant(Value),
    Apply { args: Vec<Expr>, function: String },
}

#[derive(Debug)]
pub struct Expr {
    pub id: ExprId,
    pub kind: ExprKind,
}

/// The pattern a function name in constant position must match.
pub const VAR_NAME_PATTERN: &'static str = "^[a-z][a-z0-9_]*$";

/// A lower-case ASCII letter, then lower-case letters, digits and
/// underscores.
pub open spec fn is_var_name(s: Seq<char>) -> bool {
    &&& s.len() > 0
    &&& 'a' <= s[0] <= 'z'
    &&& forall|i: int|
        1 <= i < s.len() ==> ('a' <= #[trigger] s[i] <= 'z') || ('0' <= s[i] <= '9') || s[i]
            == '_'
}

/// Relies on regex's `Regex::new` and `Regex::is_match`: the name pattern
/// compiles, and a string matches it exactly when it is a name.
#[verifier::external_body]
fn regex_is_match(pattern: &str, s: &str) -> (r: bool)
    requires
        pattern@ == VAR_NAME_PATTERN@,
    ensures
        r == is_var_name(s@),
{
    match regex::Regex::new(pattern) {
        Ok(re) => re.is_match(s),
        Err(_) => false,
    }
}

/// The one-line text of an expression: a constant's value, or
/// `function(arg, arg, ...)`.
pub open spec fn kind_text(k: ExprKind) -> Seq<char>
    decreases k, 0int,
{
    match k {
        ExprKind::Constant(v) => value_text(v@),
        ExprKind::Apply { args, function } => function@ + seq!['('] + args_text(args, args.len() as int)
            + seq![')'],
    }
}

/// The text of the first `n` arguments, separated by `, `.
pub open spec fn args_text(args: Vec<Expr>, n: int) -> Seq<char>
    decreases args, n,
{
    if n <= 0 || n > args.len() {
        Seq::empty()
    } else {
        let sep = if n > 1 {
            seq![',', ' ']
        } else {
            Seq::empty()
        };
        args_text(args, n - 1) + sep + kind_text(args[n - 1].kind)
    }
}

pub open spec fn spaces(n: nat) -> Seq<char> {
    Seq::new(n, |i: int| ' ')
}

pub open spec fn deeper(indent: nat) -> nat {
    if indent + 2 > usize::MAX {
        usize::MAX as nat
    } else {
        indent + 2
    }
}

/// Pretty text at `indent`: the one-line text when it fits in fewer than
/// `limit` columns, else the function name and `(` on a line, each argument
/// two columns deeper followed by `, ` or, for the last, nothing, each on
/// its own line, and `)` on a line.
pub open spec fn pretty_spec(k: ExprKind, indent: nat, limit: nat) -> Seq<char>
    decreases k, 0int,
{
    match k {
        ExprKind::Constant(v) => spaces(indent) + value_text(v@),
        ExprKind::Apply { args, function } => {
            let flat = spaces(indent) + kind_text(k);
            if flat.len() < limit {
                flat
            } else {
                spaces(indent) + function@ + seq!['(', '\n'] + pretty_args(
                    args,
                    args.len() as int,
                    deeper(indent),
                    limit,
                ) + spaces(indent) + seq![')', '\n']
            }
        },
    }
}

/// The pretty text of the first `n` arguments.
pub open spec fn pretty_args(args: Vec<Expr>, n: int, indent: nat, limit: nat) -> Seq<char>
    decreases args, n,
{
    if n <= 0 || n > args.len() {
        Seq::empty()
    } else {
        let end = if n < args.len() {
            seq![',', ' ', '\n']
        } else {
            seq!['\n']
        };
        pretty_args(args, n - 1, indent, limit) + pretty_spec(args[n - 1].kind, indent, limit) + end
    }
}

fn push_spaces(out: &mut String, n: usize)
    ensures
        final(out)@ == old(out)@ + spaces(n as nat),
{
    let ghost o0 = out@;
    let mut i: usize = 0;
    while i < n
        invariant
            i <= n,
            out@ == o0 + spaces(i as nat),
        decreases n - i,
    {
        proof { reveal_strlit(" "); }
        out.append(" ");
        assert(out@ =~= o0 + spaces((i + 1) as nat));
        i = i + 1;
    }
}

fn push_kind_text(k: &ExprKind, out: &mut String)
    ensures
        final(out)@ == old(out)@ + kind_text(*k),
    decreases k,
{
    let ghost o0 = out@;
    match k {
        ExprKind::Constant(v) => {
            v.push_text(out);
        },
        ExprKind::Apply { args, function } => {
            proof { reveal_strlit("("); reveal_strlit(")"); reveal_strlit(", "); }
            out.append(function.as_str());
            out.append("(");
            let ghost o1 = out@;
            let mut i: usize = 0;
            while i < args.len()
                invariant
                    i <= args@.len(),
                    *k == (ExprKind::Apply { args: *args, function: *function }),
                    out@ == o1 + args_text(*args, i as int),
                decreases args.len() - i,
            {
                proof { reveal_strlit(", "); }
                if i > 0 {
                    out.append(", ");
                }
                proof {
                    vstd::std_specs::vec::axiom_vec_index_decreases(*args, i as int);
                    assert((*k)->args == *args);
                    assert(decreases_to!(*k => (*k)->args));
                    assert(decreases_to!(args[i as int] => args[i as int].kind));
                    assert(decreases_to!(*k => args[i as int].kind));
                }
                push_kind_text(&args[i].kind, out);
                assert(out@ =~= o1 + args_text(*args, i + 1));
                i = i + 1;
            }
            proof { reveal_strlit(")"); }
            out.append(")");
            assert(out@ =~= o0 + kind_text(*k));
        },
    }
}

/// Structural equality of expressions: identities are not compared.
pub open spec fn kind_eq(a: ExprKind, b: ExprKind) -> bool
    decreases a, 0int,
{
    match a {
        ExprKind::Constant(x) => match b {
            ExprKind::Constant(y) => x@ == y@,
            _ => false,
        },
        ExprKind::Apply { args: a1, function: f1 } => match b {
            ExprKind::Apply { args: a2, function: f2 } => f1@ == f2@ && a1.len() == a2.len()
                && args_eq(a1, a2, a1.len() as int),
            _ => false,
        },
    }
}

/// The first `n` arguments of `a` and `b` are pairwise equal.
pub open spec fn args_eq(a: Vec<Expr>, b: Vec<Expr>, n: int) -> bool
    decreases a, n,
{
    if n <= 0 {
        true
    } else if n > a.len() || n > b.len() {
        false
    } else {
        args_eq(a, b, n - 1) && kind_eq(a[n - 1].kind, b[n - 1].kind)
    }
}

proof fn lemma_args_eq_prefix(a: Vec<Expr>, b: Vec<Expr>, n: int, m: int)
    requires
        args_eq(a, b, n),
        0 <= m <= n,
    ensures
        args_eq(a, b, m),
    decreases n - m,
{
    if m < n {
        lemma_args_eq_prefix(a, b, n - 1, m);
    }
}

fn kind_same(a: &ExprKind, b: &ExprKind) -> (r: bool)
    ensures
        r == kind_eq(*a, *b),
    decreases a,
{
    match a {
        ExprKind::Constant(x) => match b {
            ExprKind::Constant(y) => x.same(y),
            _ => false,
        },
        ExprKind::Apply { args: a1, function: f1 } => match b {
            ExprKind::Apply { args: a2, function: f2 } => {
                if *f1 != *f2 || a1.len() != a2.len() {
                    return false;
                }
                let mut i: usize = 0;
                while i < a1.len()
                    invariant
                        i <= a1@.len(),
                        a1@.len() == a2@.len(),
                        *a == (ExprKind::Apply { args: *a1, function: *f1 }),
                        *b == (ExprKind::Apply { args: *a2, function: *f2 }),
                        f1@ == f2@,
                        args_eq(*a1, *a2, i as int),
                    decreases a1.len() - i,
                {
                    proof {
                        vstd::std_specs::vec::axiom_vec_index_decreases(*a1, i as int);
                        assert((*a)->args == *a1);
                        assert(decreases_to!(*a => (*a)->args));
                        assert(decreases_to!(a1[i as int] => a1[i as int].kind));
                        assert(decreases_to!(*a => a1[i as int].kind));
                    }
                    if !kind_same(&a1[i].kind, &a2[i].kind) {
                        proof {
                            if args_eq(*a1, *a2, a1@.len() as int) {
                                lemma_args_eq_prefix(*a1, *a2, a1@.len() as int, i + 1);
                            }
                        }
                        return false;
                    }
                    i = i + 1;
                }
                true
            },
            _ => false,
        },
    }
}

impl PartialEq for Expr {
    fn eq(&self, o: &Expr) -> (r: bool) {
        kind_same(&self.kind, &o.kind)
    }
}

impl vstd::std_specs::cmp::PartialEqSpecImpl for Expr {
    open spec fn obeys_eq_spec() -> bool {
        true
    }

    open spec fn eq_spec(&self, o: &Expr) -> bool {
        kind_eq(self.kind, o.kind)
    }
}

impl ExprKind {
    /// Append the pretty text of this expression at `indent` columns.
    pub fn pretty_print(&self, indent: usize, limit: usize, out: &mut String)
        ensures
            final(out)@ == old(out)@ + pretty_spec(*self, indent as nat, limit as nat),
        decreases self,
    {
        let ghost o0 = out@;
        match self {
            ExprKind::Constant(v) => {
                push_spaces(out, indent);
                v.push_text(out);
                assert(out@ =~= o0 + pretty_spec(*self, indent as nat, limit as nat));
            },
            ExprKind::Apply { args, function } => {
                let mut tmp = String::new();
                push_spaces(&mut tmp, indent);
                push_kind_text(self, &mut tmp);
                if tmp.as_str().unicode_len() < limit {
                    out.append(tmp.as_str());
                    assert(out@ =~= o0 + pretty_spec(*self, indent as nat, limit as nat));
                } else {
                    proof {
                        reveal_strlit("(\n");
                        reveal_strlit(")\n");
                        reveal_strlit(", \n");
                        reveal_strlit("\n");
                    }
                    push_spaces(out, indent);
                    out.append(function.as_str());
                    out.append("(\n");
                    let inner = indent.checked_add(2).unwrap_or(usize::MAX);
                    assert(inner as nat == deeper(indent as nat));
                    let ghost o1 = out@;
                    let mut i: usize = 0;
                    while i < args.len()
                        invariant
                            i <= args@.len(),
                            *self == (ExprKind::Apply { args: *args, function: *function }),
                            inner as nat == deeper(indent as nat),
                            out@ == o1 + pretty_args(*args, i as int, inner as nat, limit as nat),
                        decreases args.len() - i,
                    {
                        proof {
                            vstd::std_specs::vec::axiom_vec_index_decreases(*args, i as int);
                        assert((*self)->args == *args);
                        assert(decreases_to!(*self => (*self)->args));
                        assert(decreases_to!(args[i as int] => args[i as int].kind));
                        assert(decreases_to!(*self => args[i as int].kind));
                            reveal_strlit(", \n");
                            reveal_strlit("\n");
                        }
                        args[i].kind.pretty_print(inner, limit, out);
                        if i + 1 < args.len() {
                            out.append(", \n");
                        } else {
                            out.append("\n");
                        }
                        assert(out@ =~= o1 + pretty_args(*args, i + 1, inner as nat, limit as nat));
                        i = i + 1;
                    }
                    push_spaces(out, indent);
                    proof { reveal_strlit(")\n"); }
                    out.append(")\n");
                    assert(out@ =~= o0 + pretty_spec(*self, indent as nat, limit as nat));
                }
            },
        }
    }

    /// This kind as an expression node with a fresh identity from `g`, or
    /// `None` once `g` is used up.
    pub fn to_expr(self, g: &mut IdGen) -> (r: Option<Expr>)
        ensures
            old(g).next_v() < u64::MAX ==> r is Some && r->Some_0.id == ExprId(old(g).next_v())
                && r->Some_0.kind == self && final(g).next_v() == old(g).next_v() + 1,
            old(g).next_v() == u64::MAX ==> r is None && final(g).next_v() == old(g).next_v(),
    {
        Expr::new(self, g)
    }

    /// The one-line text of this expression.
    pub fn to_string(&self) -> (r: String)
        ensures
            r@ == kind_text(*self),
    {
        let mut out = String::new();
        push_kind_text(self, &mut out);
        assert(out@ =~= kind_text(*self));
        out
    }

    /// The text of this expression laid out to fit `col_limit` columns
    /// where it can.
    pub fn to_string_pretty(&self, col_limit: usize) -> (r: String)
        ensures
            r@ == pretty_spec(*self, 0, col_limit as nat),
    {
        let mut out = String::new();
        self.pretty_print(0, col_limit, &mut out);
        assert(out@ =~= pretty_spec(*self, 0, col_limit as nat));
        out
    }
}

impl Expr {
    /// An expression node for `kind` with a fresh identity from `g`, or
    /// `None` once `g` is used up. Identities from one generator are never
    /// reused.
    pub fn new(kind: ExprKind, g: &mut IdGen) -> (r: Option<Expr>)
        ensures
            old(g).next_v() < u64::MAX ==> r is Some && r->Some_0.id == ExprId(old(g).next_v())
                && r->Some_0.kind == kind && final(g).next_v() == old(g).next_v() + 1,
            old(g).next_v() == u64::MAX ==> r is None && final(g).next_v() == old(g).next_v(),
    {
        match g.issue() {
            Some(id) => Some(Expr { id: ExprId(id), kind }),
            None => None,
        }
    }

    /// Whether this is a string constant that names a function: a lower-case
    /// letter followed by lower-case letters, digits and underscores.
    pub fn is_fn(&self) -> (r: bool)
        ensures
            r == (self.kind matches ExprKind::Constant(Value::String(c)) && is_var_name(c@)),
    {
        match &self.kind {
            ExprKind::Constant(Value::String(c)) => regex_is_match(VAR_NAME_PATTERN, c.as_str()),
            _ => false,
        }
    }

    /// The one-line text of this expression.
    pub fn to_string(&self) -> (r: String)
        ensures
            r@ == kind_text(self.kind),
    {
        self.kind.to_string()
    }

    /// The text of this expression laid out to fit `col_limit` columns
    /// where it can.
    pub fn to_string_pretty(&self, col_limit: usize) -> (r: String)
        ensures
            r@ == pretty_spec(self.kind, 0, col_limit as nat),
    {
        self.kind.to_string_pretty(col_limit)
    }
}

} // verus!
