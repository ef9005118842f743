//! Parsing: a token sequence to one syntax tree per statement, with local
//! variables resolved to frame offsets as they are met.

use vstd::prelude::*;
use crate::token::{OperatorKind, Token, TokenView, token_views};

verus! {

broadcast use vstd::std_specs::vec::group_vec_axioms;

/// The binary operations of the syntax tree.
#[derive(Clone, Copy, Debug, PartialEq, Eq, Structural)]
pub enum NodeKind {
    NdAdd,
    NdSub,
    NdMul,
    NdDiv,
    NdEq,
    NdNEq,
    NdLt,
    NdGt,
    NdLe,
    NdGe,
    NdAssign,
}

/// A syntax tree. The parser lowers `>` and `>=` to `NdLt` and `NdLe` with
/// the operands swapped, so it never builds `NdGt` or `NdGe`; `While` and
/// `For` are reserved and no grammar rule builds them.
#[derive(Debug, PartialEq, Eq)]
pub enum Node {
    Operator { kind: NodeKind, lhs: Box<Node>, rhs: Box<Node> },
    Number { val: i32 },
    LVar { offset: i32 },
    Return(Box<Node>),
    If { cond: Box<Node>, i_st: Box<Node>, e_st: Box<Node> },
    While { cond: Box<Node>, st: Box<Node> },
    For { cond_1: Box<Node>, cond_2: Box<Node>, cond_3: Box<Node>, st: Box<Node> },
    Block(Vec<Node>),
}

/// The mathematical value of a syntax tree: a block holds a sequence.
pub enum NodeView {
    Operator { kind: NodeKind, lhs: Box<NodeView>, rhs: Box<NodeView> },
    Number(i32),
    LVar(i32),
    Return(Box<NodeView>),
    If { cond: Box<NodeView>, i_st: Box<NodeView>, e_st: Box<NodeView> },
    While { cond: Box<NodeView>, st: Box<NodeView> },
    For {
        cond_1: Box<NodeView>,
        cond_2: Box<NodeView>,
        cond_3: Box<NodeView>,
        st: Box<NodeView>,
    },
    Block(Seq<NodeView>),
}

pub open spec fn node_view(n: &Node) -> NodeView
    decreases n,
{
    match n {
        Node::Operator { kind, lhs, rhs } => NodeView::Operator {
            kind: *kind,
            lhs: Box::new(node_view(lhs)),
            rhs: Box::new(node_view(rhs)),
        },
        Node::Number { val } => NodeView::Number(*val),
        Node::LVar { offset } => NodeView::LVar(*offset),
        Node::Return(e) => NodeView::Return(Box::new(node_view(e))),
        Node::If { cond, i_st, e_st } => NodeView::If {
            cond: Box::new(node_view(cond)),
            i_st: Box::new(node_view(i_st)),
            e_st: Box::new(node_view(e_st)),
        },
        Node::While { cond, st } => NodeView::While {
            cond: Box::new(node_view(cond)),
            st: Box::new(node_view(st)),
        },
        Node::For { cond_1, cond_2, cond_3, st } => NodeView::For {
            cond_1: Box::new(node_view(cond_1)),
            cond_2: Box::new(node_view(cond_2)),
            cond_3: Box::new(node_view(cond_3)),
            st: Box::new(node_view(st)),
        },
        Node::Block(v) => NodeView::Block(nodes_view(v@)),
    }
}

pub open spec fn nodes_view(s: Seq<Node>) -> Seq<NodeView>
    decreases s,
{
    if s.len() == 0 {
        seq![]
    } else {
        nodes_view(s.drop_last()).push(node_view(&s.last()))
    }
}

impl Node {
    /// The binary operation `kind` on `lhs` and `rhs`.
    fn new(kind: NodeKind, lhs: Node, rhs: Node) -> (r: Node)
        ensures
            r@ == (NodeView::Operator { kind, lhs: Box::new(lhs@), rhs: Box::new(rhs@) }),
    {
        Node::Operator { kind, lhs: Box::new(lhs), rhs: Box::new(rhs) }
    }
}

impl View for Node {
    type V = NodeView;

    open spec fn view(&self) -> NodeView {
        node_view(self)
    }
}

/// A parse error. A position is an index into the token sequence; for a
/// missing closing delimiter it is the index of the opening one.
#[derive(Clone, Copy, Debug, PartialEq, Eq, Structural)]
pub enum ParseError {
    /// The token at `pos` cannot stand where it stands.
    UnexpectedToken { pos: usize },
    /// The tokens ran out where one more was needed.
    UnexpectedEndOfInput,
    /// The `(` or `{` at `pos` is never closed.
    UnmatchedDelimiter { pos: usize },
}

/// What a parse step yields: a tree, the position after it, and the symbol
/// table (the names of the local variables, in order of first use).
pub type Parsed = Result<(NodeView, int, Seq<Seq<char>>), ParseError>;

/// A sequence of statements, the position after them, and the symbol table.
pub type ParsedSeq = Result<(Seq<NodeView>, int, Seq<Seq<char>>), ParseError>;

pub open spec fn is_op(t: Seq<TokenView>, p: int, k: OperatorKind) -> bool {
    0 <= p < t.len() && t[p] == TokenView::Operator(k)
}

/// The error for a token that cannot stand at `p`, or for the end of input.
pub open spec fn unexpected(t: Seq<TokenView>, p: int) -> ParseError {
    if 0 <= p < t.len() {
        ParseError::UnexpectedToken { pos: p as usize }
    } else {
        ParseError::UnexpectedEndOfInput
    }
}

/// The first index of `name` in `syms` at or after `k`.
pub open spec fn find_from(syms: Seq<Seq<char>>, name: Seq<char>, k: int) -> Option<int>
    decreases syms.len() - k,
{
    if k < 0 || k >= syms.len() {
        None
    } else if syms[k] == name {
        Some(k)
    } else {
        find_from(syms, name, k + 1)
    }
}

pub proof fn lemma_find_from(syms: Seq<Seq<char>>, name: Seq<char>, k: int)
    ensures
        match find_from(syms, name, k) {
            Some(i) => 0 <= k <= i < syms.len() && syms[i] == name,
            None => forall|i: int| 0 <= k <= i < syms.len() ==> syms[i] != name,
        },
    decreases syms.len() - k,
{
    if 0 <= k < syms.len() && syms[k] != name {
        lemma_find_from(syms, name, k + 1);
    }
}

/// The frame offset of the variable at index `k` of the symbol table.
pub open spec fn offset_of_index(k: int) -> int {
    (k + 1) * 8
}

/// Resolves `name`: a known name keeps its offset; a new one is appended and
/// gets the next offset.
pub open spec fn resolve(syms: Seq<Seq<char>>, name: Seq<char>) -> (int, Seq<Seq<char>>) {
    match find_from(syms, name, 0) {
        Some(k) => (offset_of_index(k), syms),
        None => (offset_of_index(syms.len() as int), syms.push(name)),
    }
}

/// The operator that continues a left-associative chain at `level`, from
/// `mul` (1) up to `equality` (4), with whether its operands are swapped.
pub open spec fn binop_at(t: Seq<TokenView>, q: int, level: int) -> Option<(NodeKind, bool)> {
    if 0 <= q < t.len() {
        match t[q] {
            TokenView::Operator(k) => binop_of(k, level),
            _ => None,
        }
    } else {
        None
    }
}

pub open spec fn binop_of(k: OperatorKind, level: int) -> Option<(NodeKind, bool)> {
    if level == 4 {
        if k == OperatorKind::TkEq {
            Some((NodeKind::NdEq, false))
        } else if k == OperatorKind::TkNEq {
            Some((NodeKind::NdNEq, false))
        } else {
            None
        }
    } else if level == 3 {
        if k == OperatorKind::TkLt {
            Some((NodeKind::NdLt, false))
        } else if k == OperatorKind::TkLe {
            Some((NodeKind::NdLe, false))
        } else if k == OperatorKind::TkGt {
            Some((NodeKind::NdLt, true))
        } else if k == OperatorKind::TkGe {
            Some((NodeKind::NdLe, true))
        } else {
            None
        }
    } else if level == 2 {
        if k == OperatorKind::TkAdd {
            Some((NodeKind::NdAdd, false))
        } else if k == OperatorKind::TkSub {
            Some((NodeKind::NdSub, false))
        } else {
            None
        }
    } else if level == 1 {
        if k == OperatorKind::TkMul {
            Some((NodeKind::NdMul, false))
        } else if k == OperatorKind::TkDiv {
            Some((NodeKind::NdDiv, false))
        } else {
            None
        }
    } else {
        None
    }
}

pub open spec fn binary_node(kind: NodeKind, swap: bool, a: NodeView, b: NodeView) -> NodeView {
    if swap {
        NodeView::Operator { kind, lhs: Box::new(b), rhs: Box::new(a) }
    } else {
        NodeView::Operator { kind, lhs: Box::new(a), rhs: Box::new(b) }
    }
}

/// `primary = number | identifier | "(" expr ")"`
pub open spec fn parse_primary(t: Seq<TokenView>, p: int, syms: Seq<Seq<char>>) -> Parsed
    decreases t.len() - p, 0int,
{
    if p < 0 || p >= t.len() {
        Err(ParseError::UnexpectedEndOfInput)
    } else {
        match t[p] {
            TokenView::Operator(OperatorKind::TkPrSt) => match parse_assign(t, p + 1, syms) {
                Ok((n, q, sy)) => if is_op(t, q, OperatorKind::TkPrEd) {
                    Ok((n, q + 1, sy))
                } else {
                    Err(ParseError::UnmatchedDelimiter { pos: p as usize })
                },
                Err(e) => Err(e),
            },
            TokenView::Ident(name) => {
                let (off, sy) = resolve(syms, name);
                Ok((NodeView::LVar(off as i32), p + 1, sy))
            },
            TokenView::Number(v) => Ok((NodeView::Number(v), p + 1, syms)),
            _ => Err(ParseError::UnexpectedToken { pos: p as usize }),
        }
    }
}

/// `unary = ("+" | "-")? primary`, where `-x` is `0 - x`.
pub open spec fn parse_unary(t: Seq<TokenView>, p: int, syms: Seq<Seq<char>>) -> Parsed
    decreases t.len() - p, 1int,
{
    if is_op(t, p, OperatorKind::TkAdd) {
        parse_primary(t, p + 1, syms)
    } else if is_op(t, p, OperatorKind::TkSub) {
        match parse_primary(t, p + 1, syms) {
            Ok((n, q, sy)) => Ok(
                (
                    NodeView::Operator {
                        kind: NodeKind::NdSub,
                        lhs: Box::new(NodeView::Number(0)),
                        rhs: Box::new(n),
                    },
                    q,
                    sy,
                ),
            ),
            Err(e) => Err(e),
        }
    } else {
        parse_primary(t, p, syms)
    }
}

/// A left-associative chain at `level`: `mul` (1), `add` (2), `relational`
/// (3) or `equality` (4); level 0 is `unary`.
pub open spec fn parse_binary(t: Seq<TokenView>, p: int, syms: Seq<Seq<char>>, level: int) -> Parsed
    decreases t.len() - p, if level > 0 { level + 2 } else { 2 },
{
    if level <= 0 {
        parse_unary(t, p, syms)
    } else {
        match parse_binary(t, p, syms, level - 1) {
            Ok((lhs, q, sy)) => if q <= p || q > t.len() {
                arbitrary()
            } else {
                binary_rest(t, q, lhs, sy, level)
            },
            Err(e) => Err(e),
        }
    }
}

/// The rest of a chain at `level` after its left operand `lhs`.
pub open spec fn binary_rest(
    t: Seq<TokenView>,
    q: int,
    lhs: NodeView,
    syms: Seq<Seq<char>>,
    level: int,
) -> Parsed
    decreases t.len() - q, 0int,
{
    match binop_at(t, q, level) {
        None => Ok((lhs, q, syms)),
        Some((kind, swap)) => if level <= 0 {
            arbitrary()
        } else {
            match parse_binary(t, q + 1, syms, level - 1) {
                Ok((rhs, r, sy)) => if r <= q || r > t.len() {
                    arbitrary()
                } else {
                    binary_rest(t, r, binary_node(kind, swap, lhs, rhs), sy, level)
                },
                Err(e) => Err(e),
            }
        },
    }
}

/// `assign = equality ("=" assign)?`; the target must be a variable.
pub open spec fn parse_assign(t: Seq<TokenView>, p: int, syms: Seq<Seq<char>>) -> Parsed
    decreases t.len() - p, 7int,
{
    match parse_binary(t, p, syms, 4) {
        Ok((lhs, q, sy)) => if is_op(t, q, OperatorKind::TkAssign) {
            if q < p {
                arbitrary()
            } else if !(lhs is LVar) {
                Err(ParseError::UnexpectedToken { pos: q as usize })
            } else {
                match parse_assign(t, q + 1, sy) {
                    Ok((rhs, r, sy2)) => Ok(
                        (
                            NodeView::Operator {
                                kind: NodeKind::NdAssign,
                                lhs: Box::new(lhs),
                                rhs: Box::new(rhs),
                            },
                            r,
                            sy2,
                        ),
                    ),
                    Err(e) => Err(e),
                }
            }
        } else {
            Ok((lhs, q, sy))
        },
        Err(e) => Err(e),
    }
}

/// An expression followed by `;`.
pub open spec fn parse_terminated(t: Seq<TokenView>, p: int, syms: Seq<Seq<char>>) -> Parsed
    decreases t.len() - p, 8int,
{
    match parse_assign(t, p, syms) {
        Ok((e, q, sy)) => if is_op(t, q, OperatorKind::TkExprEnd) {
            Ok((e, q + 1, sy))
        } else {
            Err(unexpected(t, q))
        },
        Err(e) => Err(e),
    }
}

/// The placeholder for a missing `else` branch: it leaves one value.
pub open spec fn no_else() -> NodeView {
    NodeView::Number(0)
}

/// `stmt = expr ";" | "{" stmt* "}" | "return" expr ";"
///       | "if" "(" expr ")" stmt ("else" stmt)?`
pub open spec fn parse_stmt(t: Seq<TokenView>, p: int, syms: Seq<Seq<char>>) -> Parsed
    decreases t.len() - p, 9int,
{
    if p < 0 || p >= t.len() {
        Err(ParseError::UnexpectedEndOfInput)
    } else {
        match t[p] {
            TokenView::Return => match parse_terminated(t, p + 1, syms) {
                Ok((e, q, sy)) => Ok((NodeView::Return(Box::new(e)), q, sy)),
                Err(e) => Err(e),
            },
            TokenView::If => if !is_op(t, p + 1, OperatorKind::TkPrSt) {
                Err(unexpected(t, p + 1))
            } else {
                match parse_assign(t, p + 2, syms) {
                    Ok((c, q, sy)) => if !is_op(t, q, OperatorKind::TkPrEd) {
                        Err(ParseError::UnmatchedDelimiter { pos: (p + 1) as usize })
                    } else if q < p {
                        arbitrary()
                    } else {
                        match parse_stmt(t, q + 1, sy) {
                            Ok((th, r, sy2)) => if 0 <= r < t.len() && t[r] == TokenView::Else {
                                if r <= q || r > t.len() {
                                    arbitrary()
                                } else {
                                    match parse_stmt(t, r + 1, sy2) {
                                        Ok((el, u, sy3)) => Ok(
                                            (
                                                NodeView::If {
                                                    cond: Box::new(c),
                                                    i_st: Box::new(th),
                                                    e_st: Box::new(el),
                                                },
                                                u,
                                                sy3,
                                            ),
                                        ),
                                        Err(e) => Err(e),
                                    }
                                }
                            } else {
                                Ok(
                                    (
                                        NodeView::If {
                                            cond: Box::new(c),
                                            i_st: Box::new(th),
                                            e_st: Box::new(no_else()),
                                        },
                                        r,
                                        sy2,
                                    ),
                                )
                            },
                            Err(e) => Err(e),
                        }
                    },
                    Err(e) => Err(e),
                }
            },
            TokenView::Operator(OperatorKind::TkBrSt) => match parse_block(t, p + 1, p, syms) {
                Ok((ss, q, sy)) => Ok((NodeView::Block(ss), q, sy)),
                Err(e) => Err(e),
            },
            _ => parse_terminated(t, p, syms),
        }
    }
}

/// The statements of a block opened at `open`, up to and including its `}`.
pub open spec fn parse_block(t: Seq<TokenView>, p: int, open: int, syms: Seq<Seq<char>>) -> ParsedSeq
    decreases t.len() - p, 10int,
{
    if p < 0 || p >= t.len() {
        Err(ParseError::UnmatchedDelimiter { pos: open as usize })
    } else if t[p] == TokenView::Operator(OperatorKind::TkBrEd) {
        Ok((seq![], p + 1, syms))
    } else {
        match parse_stmt(t, p, syms) {
            Ok((st, q, sy)) => if q <= p || q > t.len() {
                arbitrary()
            } else {
                match parse_block(t, q, open, sy) {
                    Ok((ss, r, sy2)) => Ok((seq![st] + ss, r, sy2)),
                    Err(e) => Err(e),
                }
            },
            Err(e) => Err(e),
        }
    }
}

/// `program = stmt*`, from position `p` to the end.
pub open spec fn parse_program(t: Seq<TokenView>, p: int, syms: Seq<Seq<char>>) -> Result<
    (Seq<NodeView>, Seq<Seq<char>>),
    ParseError,
>
    decreases t.len() - p,
{
    if p < 0 || p >= t.len() {
        Ok((seq![], syms))
    } else {
        match parse_stmt(t, p, syms) {
            Ok((st, q, sy)) => if q <= p || q > t.len() {
                arbitrary()
            } else {
                match parse_program(t, q, sy) {
                    Ok((ss, sy2)) => Ok((seq![st] + ss, sy2)),
                    Err(e) => Err(e),
                }
            },
            Err(e) => Err(e),
        }
    }
}

/// A well-formed expression: only the operations that code generation
/// knows, an assignment only to a variable, and positive frame offsets.
pub open spec fn is_expr(n: NodeView) -> bool
    decreases n,
{
    match n {
        NodeView::Operator { kind, lhs, rhs } => match kind {
            NodeKind::NdAssign => *lhs is LVar && is_expr(*lhs) && is_expr(*rhs),
            NodeKind::NdGt | NodeKind::NdGe => false,
            _ => is_expr(*lhs) && is_expr(*rhs),
        },
        NodeView::Number(_) => true,
        NodeView::LVar(off) => off >= 8,
        _ => false,
    }
}

/// A well-formed statement, as the parser builds them.
pub open spec fn is_stmt(n: NodeView) -> bool
    decreases n,
{
    match n {
        NodeView::Return(e) => is_expr(*e),
        NodeView::If { cond, i_st, e_st } => is_expr(*cond) && is_stmt(*i_st) && is_stmt(*e_st),
        NodeView::Block(ss) => are_stmts(ss),
        NodeView::While { .. } => false,
        NodeView::For { .. } => false,
        _ => is_expr(n),
    }
}

pub open spec fn are_stmts(ss: Seq<NodeView>) -> bool
    decreases ss,
{
    if ss.len() == 0 {
        true
    } else {
        are_stmts(ss.drop_last()) && is_stmt(ss.last())
    }
}

/// The number of `if` statements in a statement.
pub open spec fn if_count(n: NodeView) -> nat
    decreases n,
{
    match n {
        NodeView::If { cond, i_st, e_st } => 1 + if_count(*i_st) + if_count(*e_st),
        NodeView::Block(ss) => if_count_seq(ss),
        _ => 0,
    }
}

pub open spec fn if_count_seq(ss: Seq<NodeView>) -> nat
    decreases ss,
{
    if ss.len() == 0 {
        0
    } else {
        if_count_seq(ss.drop_last()) + if_count(ss.last())
    }
}

/// A local variable: its name and its frame offset.
struct LVar {
    offset: i32,
    name: String,
}

impl LVar {
    fn new(offset: i32, name: String) -> (r: LVar)
        ensures
            r.offset == offset,
            r.name == name,
    {
        LVar { offset, name }
    }
}

spec fn names(lvars: Seq<LVar>) -> Seq<Seq<char>> {
    lvars.map_values(|l: LVar| l.name@)
}

/// Each variable sits at the offset of its index.
spec fn lvars_wf(lvars: Seq<LVar>) -> bool {
    forall|k: int| 0 <= k < lvars.len() ==> #[trigger] lvars[k].offset == offset_of_index(k)
}

/// The largest token count for which every frame offset fits in an `i32`.
pub const MAX_TOKENS: usize = 0x0fff_ffff;

/// The offset of `name` if it is already known.
fn find_duplication_lvar(name: &String, locals: &Vec<LVar>) -> (r: Option<i32>)
    requires
        lvars_wf(locals@),
    ensures
        match find_from(names(locals@), name@, 0) {
            Some(k) => r is Some && r->0 == offset_of_index(k),
            None => r is None,
        },
{
    let mut k: usize = 0;
    while k < locals.len()
        invariant
            k <= locals.len(),
            lvars_wf(locals@),
            find_from(names(locals@), name@, 0) == find_from(names(locals@), name@, k as int),
        decreases locals.len() - k,
    {
        if *name == locals[k].name {
            assert(names(locals@)[k as int] == name@);
            return Some(locals[k].offset);
        }
        k += 1;
    }
    None
}

/// The offset of `name`, allocating the next one on its first use.
fn find_lvar(name: &String, locals: &mut Vec<LVar>) -> (off: i32)
    requires
        lvars_wf(old(locals)@),
        old(locals).len() < MAX_TOKENS,
    ensures
        resolve(names(old(locals)@), name@) == (off as int, names(final(locals)@)),
        lvars_wf(final(locals)@),
        final(locals).len() <= old(locals).len() + 1,
        off >= 8,
{
    proof {
        lemma_find_from(names(locals@), name@, 0);
    }
    match find_duplication_lvar(name, locals) {
        Some(i) => i,
        None => {
            let offset = (locals.len() as i32 + 1) * 8;
            let lvar = LVar::new(offset, name.clone());
            locals.push(lvar);
            proof {
                assert(names(locals@) =~= names(old(locals)@).push(name@));
            }
            offset
        },
    }
}

/// The token that an error names lies within the `n` tokens.
pub open spec fn error_in_range(e: ParseError, n: int) -> bool {
    match e {
        ParseError::UnexpectedToken { pos } => pos < n,
        ParseError::UnmatchedDelimiter { pos } => pos < n,
        ParseError::UnexpectedEndOfInput => true,
    }
}

spec fn parse_pre(tokens: Seq<Token>, p: int, lvars: Seq<LVar>) -> bool {
    &&& 0 <= p <= tokens.len()
    &&& tokens.len() <= MAX_TOKENS
    &&& lvars.len() <= p
    &&& lvars_wf(lvars)
}

/// `r` is what the grammar gives (`s`), and on success a well-formed
/// expression that ends after `p`, with the symbol table `lvars`.
spec fn expr_result(
    r: Result<(Node, usize), ParseError>,
    s: Parsed,
    p: int,
    tokens: Seq<Token>,
    lvars: Seq<LVar>,
) -> bool {
    match r {
        Ok((n, q)) => {
            &&& p < q <= tokens.len()
            &&& lvars.len() <= q
            &&& lvars_wf(lvars)
            &&& is_expr(n@)
            &&& s == Ok::<(NodeView, int, Seq<Seq<char>>), ParseError>((n@, q as int, names(lvars)))
        },
        Err(e) => s == Err::<(NodeView, int, Seq<Seq<char>>), ParseError>(e) && error_in_range(
            e,
            tokens.len() as int,
        ),
    }
}

/// As `expr_result`, for a statement, with at most one `if` per token.
spec fn stmt_result(
    r: Result<(Node, usize), ParseError>,
    s: Parsed,
    p: int,
    tokens: Seq<Token>,
    lvars: Seq<LVar>,
) -> bool {
    match r {
        Ok((n, q)) => {
            &&& p < q <= tokens.len()
            &&& lvars.len() <= q
            &&& lvars_wf(lvars)
            &&& is_stmt(n@)
            &&& if_count(n@) <= q - p
            &&& s == Ok::<(NodeView, int, Seq<Seq<char>>), ParseError>((n@, q as int, names(lvars)))
        },
        Err(e) => s == Err::<(NodeView, int, Seq<Seq<char>>), ParseError>(e) && error_in_range(
            e,
            tokens.len() as int,
        ),
    }
}

/// Whether the token at `q` is the operator `kind`.
fn is_op_at(tokens: &Vec<Token>, q: usize, kind: OperatorKind) -> (r: bool)
    ensures
        r == is_op(token_views(tokens@), q as int, kind),
{
    if q < tokens.len() {
        match &tokens[q] {
            Token::Operator { kind: k } => *k == kind,
            _ => false,
        }
    } else {
        false
    }
}

/// `primary`, from token `p`; identifiers are resolved in `lvars`.
fn primary(tokens: &Vec<Token>, p: usize, lvars: &mut Vec<LVar>) -> (r: Result<(Node, usize), ParseError>)
    requires
        parse_pre(tokens@, p as int, old(lvars)@),
    ensures
        expr_result(
            r,
            parse_primary(token_views(tokens@), p as int, names(old(lvars)@)),
            p as int,
            tokens@,
            final(lvars)@,
        ),
    decreases tokens.len() - p, 0int,
{
    if p >= tokens.len() {
        return Err(ParseError::UnexpectedEndOfInput);
    }
    match &tokens[p] {
        Token::Operator { kind: OperatorKind::TkPrSt } => match assign(tokens, p + 1, lvars) {
            Ok((n, q)) => {
                if is_op_at(tokens, q, OperatorKind::TkPrEd) {
                    Ok((n, q + 1))
                } else {
                    Err(ParseError::UnmatchedDelimiter { pos: p })
                }
            },
            Err(e) => Err(e),
        },
        Token::Ident { name } => {
            let off = find_lvar(name, lvars);
            Ok((Node::LVar { offset: off }, p + 1))
        },
        Token::Number { val } => Ok((Node::Number { val: *val }, p + 1)),
        _ => Err(ParseError::UnexpectedToken { pos: p }),
    }
}

/// `unary`, from token `p`.
fn unary(tokens: &Vec<Token>, p: usize, lvars: &mut Vec<LVar>) -> (r: Result<(Node, usize), ParseError>)
    requires
        parse_pre(tokens@, p as int, old(lvars)@),
    ensures
        expr_result(
            r,
            parse_unary(token_views(tokens@), p as int, names(old(lvars)@)),
            p as int,
            tokens@,
            final(lvars)@,
        ),
    decreases tokens.len() - p, 1int,
{
    if is_op_at(tokens, p, OperatorKind::TkAdd) {
        primary(tokens, p + 1, lvars)
    } else if is_op_at(tokens, p, OperatorKind::TkSub) {
        match primary(tokens, p + 1, lvars) {
            Ok((n, q)) => {
                let zero = Node::Number { val: 0 };
                assert(zero@ == NodeView::Number(0) && is_expr(zero@));
                Ok((Node::new(NodeKind::NdSub, zero, n), q))
            },
            Err(e) => Err(e),
        }
    } else {
        primary(tokens, p, lvars)
    }
}

/// The operator that continues a chain at `level`, if the token at `q` is one.
fn binop(tokens: &Vec<Token>, q: usize, level: u8) -> (r: Option<(NodeKind, bool)>)
    ensures
        r == binop_at(token_views(tokens@), q as int, level as int),
{
    if q >= tokens.len() {
        return None;
    }
    match &tokens[q] {
        Token::Operator { kind } => {
            let k = *kind;
            if level == 4 {
                match k {
                    OperatorKind::TkEq => Some((NodeKind::NdEq, false)),
                    OperatorKind::TkNEq => Some((NodeKind::NdNEq, false)),
                    _ => None,
                }
            } else if level == 3 {
                match k {
                    OperatorKind::TkLt => Some((NodeKind::NdLt, false)),
                    OperatorKind::TkLe => Some((NodeKind::NdLe, false)),
                    OperatorKind::TkGt => Some((NodeKind::NdLt, true)),
                    OperatorKind::TkGe => Some((NodeKind::NdLe, true)),
                    _ => None,
                }
            } else if level == 2 {
                match k {
                    OperatorKind::TkAdd => Some((NodeKind::NdAdd, false)),
                    OperatorKind::TkSub => Some((NodeKind::NdSub, false)),
                    _ => None,
                }
            } else if level == 1 {
                match k {
                    OperatorKind::TkMul => Some((NodeKind::NdMul, false)),
                    OperatorKind::TkDiv => Some((NodeKind::NdDiv, false)),
                    _ => None,
                }
            } else {
                None
            }
        },
        _ => None,
    }
}

/// A left-associative chain: `mul` (1), `add` (2), `relational` (3),
/// `equality` (4); level 0 is `unary`.
fn binary(tokens: &Vec<Token>, p: usize, lvars: &mut Vec<LVar>, level: u8) -> (r: Result<
    (Node, usize),
    ParseError,
>)
    requires
        parse_pre(tokens@, p as int, old(lvars)@),
        level <= 4,
    ensures
        expr_result(
            r,
            parse_binary(token_views(tokens@), p as int, names(old(lvars)@), level as int),
            p as int,
            tokens@,
            final(lvars)@,
        ),
    decreases tokens.len() - p, if level > 0 { level + 2 } else { 2 },
{
    if level == 0 {
        return unary(tokens, p, lvars);
    }
    let ghost t = token_views(tokens@);
    let (mut node, mut q) = match binary(tokens, p, lvars, level - 1) {
        Ok(x) => x,
        Err(e) => {
            return Err(e);
        },
    };
    loop
        invariant
            parse_pre(tokens@, q as int, lvars@),
            t == token_views(tokens@),
            p < q <= tokens.len(),
            0 < level <= 4,
            is_expr(node@),
            parse_binary(t, p as int, names(old(lvars)@), level as int) == binary_rest(
                t,
                q as int,
                node@,
                names(lvars@),
                level as int,
            ),
        ensures
            parse_pre(tokens@, q as int, lvars@),
            p < q <= tokens.len(),
            is_expr(node@),
            parse_binary(t, p as int, names(old(lvars)@), level as int) == Ok::<
                (NodeView, int, Seq<Seq<char>>),
                ParseError,
            >((node@, q as int, names(lvars@))),
        decreases tokens.len() - q,
    {
        match binop(tokens, q, level) {
            None => {
                break;
            },
            Some((kind, swap)) => {
                match binary(tokens, q + 1, lvars, level - 1) {
                    Ok((rhs, r)) => {
                        node = if swap {
                            Node::new(kind, rhs, node)
                        } else {
                            Node::new(kind, node, rhs)
                        };
                        q = r;
                    },
                    Err(e) => {
                        return Err(e);
                    },
                }
            },
        }
    }
    Ok((node, q))
}

/// `assign = equality ("=" assign)?`
fn assign(tokens: &Vec<Token>, p: usize, lvars: &mut Vec<LVar>) -> (r: Result<(Node, usize), ParseError>)
    requires
        parse_pre(tokens@, p as int, old(lvars)@),
    ensures
        expr_result(
            r,
            parse_assign(token_views(tokens@), p as int, names(old(lvars)@)),
            p as int,
            tokens@,
            final(lvars)@,
        ),
    decreases tokens.len() - p, 7int,
{
    let (lhs, q) = match binary(tokens, p, lvars, 4) {
        Ok(x) => x,
        Err(e) => {
            return Err(e);
        },
    };
    if is_op_at(tokens, q, OperatorKind::TkAssign) {
        if let Node::LVar { .. } = lhs {
            match assign(tokens, q + 1, lvars) {
                Ok((rhs, r)) => Ok((Node::new(NodeKind::NdAssign, lhs, rhs), r)),
                Err(e) => Err(e),
            }
        } else {
            Err(ParseError::UnexpectedToken { pos: q })
        }
    } else {
        Ok((lhs, q))
    }
}

/// An expression followed by `;`.
fn terminated(tokens: &Vec<Token>, p: usize, lvars: &mut Vec<LVar>) -> (r: Result<
    (Node, usize),
    ParseError,
>)
    requires
        parse_pre(tokens@, p as int, old(lvars)@),
    ensures
        expr_result(
            r,
            parse_terminated(token_views(tokens@), p as int, names(old(lvars)@)),
            p as int,
            tokens@,
            final(lvars)@,
        ),
    decreases tokens.len() - p, 8int,
{
    match assign(tokens, p, lvars) {
        Ok((e, q)) => {
            if is_op_at(tokens, q, OperatorKind::TkExprEnd) {
                Ok((e, q + 1))
            } else if q < tokens.len() {
                Err(ParseError::UnexpectedToken { pos: q })
            } else {
                Err(ParseError::UnexpectedEndOfInput)
            }
        },
        Err(e) => Err(e),
    }
}

/// Puts `pre` in front of the statements of a successful parse.
pub open spec fn prepend_seq(pre: Seq<NodeView>, r: ParsedSeq) -> ParsedSeq {
    match r {
        Ok((ss, q, sy)) => Ok((pre + ss, q, sy)),
        Err(e) => Err(e),
    }
}

/// `stmt`, from token `p`.
fn stmt(tokens: &Vec<Token>, p: usize, lvars: &mut Vec<LVar>) -> (r: Result<(Node, usize), ParseError>)
    requires
        parse_pre(tokens@, p as int, old(lvars)@),
    ensures
        stmt_result(
            r,
            parse_stmt(token_views(tokens@), p as int, names(old(lvars)@)),
            p as int,
            tokens@,
            final(lvars)@,
        ),
    decreases tokens.len() - p, 9int,
{
    if p >= tokens.len() {
        return Err(ParseError::UnexpectedEndOfInput);
    }
    match &tokens[p] {
        Token::Return => match terminated(tokens, p + 1, lvars) {
            Ok((e, q)) => Ok((Node::Return(Box::new(e)), q)),
            Err(e) => Err(e),
        },
        Token::If => {
            if !is_op_at(tokens, p + 1, OperatorKind::TkPrSt) {
                if p + 1 < tokens.len() {
                    return Err(ParseError::UnexpectedToken { pos: p + 1 });
                } else {
                    return Err(ParseError::UnexpectedEndOfInput);
                }
            }
            let (cond, q) = match assign(tokens, p + 2, lvars) {
                Ok(x) => x,
                Err(e) => {
                    return Err(e);
                },
            };
            if !is_op_at(tokens, q, OperatorKind::TkPrEd) {
                return Err(ParseError::UnmatchedDelimiter { pos: p + 1 });
            }
            let (i_st, r) = match stmt(tokens, q + 1, lvars) {
                Ok(x) => x,
                Err(e) => {
                    return Err(e);
                },
            };
            let has_else = r < tokens.len() && match &tokens[r] {
                Token::Else => true,
                _ => false,
            };
            if has_else {
                match stmt(tokens, r + 1, lvars) {
                    Ok((e_st, u)) => Ok(
                        (
                            Node::If {
                                cond: Box::new(cond),
                                i_st: Box::new(i_st),
                                e_st: Box::new(e_st),
                            },
                            u,
                        ),
                    ),
                    Err(e) => Err(e),
                }
            } else {
                let e_st = Node::Number { val: 0 };
                assert(e_st@ == no_else() && is_stmt(e_st@) && if_count(e_st@) == 0);
                Ok(
                    (
                        Node::If { cond: Box::new(cond), i_st: Box::new(i_st), e_st: Box::new(e_st) },
                        r,
                    ),
                )
            }
        },
        Token::Operator { kind: OperatorKind::TkBrSt } => match block(tokens, p + 1, p, lvars) {
            Ok((ss, q)) => Ok((Node::Block(ss), q)),
            Err(e) => Err(e),
        },
        _ => terminated(tokens, p, lvars),
    }
}

/// The statements of the block opened at `open`, through its `}`.
fn block(tokens: &Vec<Token>, p: usize, open: usize, lvars: &mut Vec<LVar>) -> (r: Result<
    (Vec<Node>, usize),
    ParseError,
>)
    requires
        parse_pre(tokens@, p as int, old(lvars)@),
        open < p,
    ensures
        match r {
            Ok((ss, q)) => {
                &&& p < q <= tokens.len()
                &&& final(lvars).len() <= q
                &&& lvars_wf(final(lvars)@)
                &&& are_stmts(nodes_view(ss@))
                &&& if_count_seq(nodes_view(ss@)) <= q - p
                &&& parse_block(token_views(tokens@), p as int, open as int, names(old(lvars)@))
                    == Ok::<(Seq<NodeView>, int, Seq<Seq<char>>), ParseError>(
                    (nodes_view(ss@), q as int, names(final(lvars)@)),
                )
            },
            Err(e) => parse_block(token_views(tokens@), p as int, open as int, names(old(lvars)@))
                == Err::<(Seq<NodeView>, int, Seq<Seq<char>>), ParseError>(e) && error_in_range(
                e,
                tokens.len() as int,
            ),
        },
    decreases tokens.len() - p, 10int,
{
    let ghost t = token_views(tokens@);
    let mut stmts: Vec<Node> = Vec::new();
    let mut q = p;
    assert(nodes_view(stmts@) + seq![] =~= seq![]);
    loop
        invariant
            t == token_views(tokens@),
            parse_pre(tokens@, q as int, lvars@),
            open < p <= q <= tokens.len(),
            are_stmts(nodes_view(stmts@)),
            if_count_seq(nodes_view(stmts@)) <= q - p,
            parse_block(t, p as int, open as int, names(old(lvars)@)) == prepend_seq(
                nodes_view(stmts@),
                parse_block(t, q as int, open as int, names(lvars@)),
            ),
        decreases tokens.len() - q,
    {
        if q >= tokens.len() {
            return Err(ParseError::UnmatchedDelimiter { pos: open });
        }
        if is_op_at(tokens, q, OperatorKind::TkBrEd) {
            assert(nodes_view(stmts@) + seq![] =~= nodes_view(stmts@));
            return Ok((stmts, q + 1));
        }
        let ghost sy0 = names(lvars@);
        match stmt(tokens, q, lvars) {
            Ok((st, r)) => {
                let ghost pre = nodes_view(stmts@);
                let ghost before = stmts@;
                stmts.push(st);
                assert(stmts@.drop_last() =~= before);
                assert(nodes_view(stmts@) == pre.push(st@));
                assert(nodes_view(stmts@).drop_last() =~= pre);
                assert(prepend_seq(pre, parse_block(t, q as int, open as int, sy0))
                    == prepend_seq(pre.push(st@), parse_block(t, r as int, open as int, names(lvars@)))) by {
                    match parse_block(t, r as int, open as int, names(lvars@)) {
                        Ok((ss, u, sy)) => {
                            assert(pre + (seq![st@] + ss) =~= pre.push(st@) + ss);
                        },
                        Err(_) => {},
                    }
                }
                q = r;
            },
            Err(e) => {
                return Err(e);
            },
        }
    }
}

/// Parses a whole token sequence: `program = stmt*`. Variables are
/// resolved to frame offsets `8, 16, ...` in order of first use.
pub fn program(tokens: &Vec<Token>) -> (r: Result<Vec<Node>, ParseError>)
    requires
        tokens.len() <= MAX_TOKENS,
    ensures
        match r {
            Ok(code) => {
                &&& parse_program(token_views(tokens@), 0, seq![]) is Ok
                &&& nodes_view(code@) == parse_program(token_views(tokens@), 0, seq![])->Ok_0.0
                &&& are_stmts(nodes_view(code@))
                &&& if_count_seq(nodes_view(code@)) <= tokens.len()
            },
            Err(e) => parse_program(token_views(tokens@), 0, seq![]) == Err::<
                (Seq<NodeView>, Seq<Seq<char>>),
                ParseError,
            >(e) && error_in_range(e, tokens.len() as int),
        },
{
    let ghost t = token_views(tokens@);
    let mut lvars: Vec<LVar> = Vec::new();
    let mut code: Vec<Node> = Vec::new();
    let mut q: usize = 0;
    assert(names(lvars@) =~= seq![]);
    assert(nodes_view(code@) + seq![] =~= seq![]);
    while q < tokens.len()
        invariant
            t == token_views(tokens@),
            parse_pre(tokens@, q as int, lvars@),
            are_stmts(nodes_view(code@)),
            if_count_seq(nodes_view(code@)) <= q,
            parse_program(t, 0, seq![]) == match parse_program(t, q as int, names(lvars@)) {
                Ok((ss, sy)) => Ok((nodes_view(code@) + ss, sy)),
                Err(e) => Err(e),
            },
        decreases tokens.len() - q,
    {
        match stmt(tokens, q, &mut lvars) {
            Ok((st, r)) => {
                let ghost pre = nodes_view(code@);
                let ghost sy = names(lvars@);
                let ghost before = code@;
                code.push(st);
                assert(code@.drop_last() =~= before);
                assert(nodes_view(code@) == pre.push(st@));
                assert(nodes_view(code@).drop_last() =~= pre);
                proof {
                    match parse_program(t, r as int, sy) {
                        Ok((ss, sy2)) => {
                            assert(pre + (seq![st@] + ss) =~= pre.push(st@) + ss);
                        },
                        Err(_) => {},
                    }
                }
                q = r;
            },
            Err(e) => {
                return Err(e);
            },
        }
    }
    assert(nodes_view(code@) + seq![] =~= nodes_view(code@));
    Ok(code)
}

pub proof fn lemma_nodes_view(s: Seq<Node>)
    ensures
        nodes_view(s).len() == s.len(),
        forall|k: int| 0 <= k < s.len() ==> #[trigger] nodes_view(s)[k] == node_view(&s[k]),
    decreases s.len(),
{
    if s.len() > 0 {
        lemma_nodes_view(s.drop_last());
    }
}

pub proof fn lemma_are_stmts(ss: Seq<NodeView>)
    requires
        are_stmts(ss),
    ensures
        forall|k: int| 0 <= k < ss.len() ==> is_stmt(#[trigger] ss[k]),
    decreases ss.len(),
{
    if ss.len() > 0 {
        lemma_are_stmts(ss.drop_last());
        assert forall|k: int| 0 <= k < ss.len() implies is_stmt(#[trigger] ss[k]) by {
            if k < ss.len() - 1 {
                assert(ss[k] == ss.drop_last()[k]);
            }
        }
    }
}

/// The `if` count of a prefix grows one statement at a time, up to the
/// count of the whole sequence.
pub proof fn lemma_if_count_take(ss: Seq<NodeView>, j: int)
    requires
        0 <= j <= ss.len(),
    ensures
        if_count_seq(ss.take(j)) <= if_count_seq(ss),
        j < ss.len() ==> if_count_seq(ss.take(j + 1)) == if_count_seq(ss.take(j)) + if_count(ss[j]),
    decreases ss.len(),
{
    if j < ss.len() {
        assert(ss.take(j + 1).drop_last() =~= ss.take(j));
        lemma_if_count_take(ss.drop_last(), j);
        assert(ss.drop_last().take(j) =~= ss.take(j));
    } else {
        assert(ss.take(j) =~= ss);
    }
}

/// A well-formed expression is a statement that holds no `if`.
pub proof fn lemma_expr_is_stmt(n: NodeView)
    requires
        is_expr(n),
    ensures
        is_stmt(n),
        if_count(n) == 0,
{
}

/// A successful parse step from `p` ends after `p` within the `n` tokens,
/// keeps the symbol table no longer than the tokens consumed, and builds a
/// well-formed expression, or a statement with at most one `if` per token.
pub open spec fn well_parsed(r: Parsed, p: int, n: int, stmt: bool) -> bool {
    match r {
        Ok((node, q, sy)) => {
            &&& p < q <= n
            &&& sy.len() <= q
            &&& if stmt {
                is_stmt(node) && if_count(node) <= q - p
            } else {
                is_expr(node)
            }
        },
        Err(_) => true,
    }
}

/// Where a parse step may start: within the tokens, with a symbol table no
/// longer than the tokens before it, and few enough tokens for every frame
/// offset to fit in an `i32`.
pub open spec fn parse_start(t: Seq<TokenView>, p: int, syms: Seq<Seq<char>>) -> bool {
    &&& 0 <= p <= t.len()
    &&& t.len() <= MAX_TOKENS
    &&& syms.len() <= p
}

pub proof fn lemma_primary_wf(t: Seq<TokenView>, p: int, syms: Seq<Seq<char>>)
    requires
        parse_start(t, p, syms),
    ensures
        well_parsed(parse_primary(t, p, syms), p, t.len() as int, false),
    decreases t.len() - p, 0int,
{
    if 0 <= p < t.len() {
        match t[p] {
            TokenView::Operator(OperatorKind::TkPrSt) => {
                lemma_assign_wf(t, p + 1, syms);
            },
            TokenView::Ident(name) => {
                lemma_find_from(syms, name, 0);
            },
            _ => {},
        }
    }
}

pub proof fn lemma_unary_wf(t: Seq<TokenView>, p: int, syms: Seq<Seq<char>>)
    requires
        parse_start(t, p, syms),
    ensures
        well_parsed(parse_unary(t, p, syms), p, t.len() as int, false),
    decreases t.len() - p, 1int,
{
    if is_op(t, p, OperatorKind::TkAdd) || is_op(t, p, OperatorKind::TkSub) {
        lemma_primary_wf(t, p + 1, syms);
        assert(is_expr(NodeView::Number(0)));
    } else {
        lemma_primary_wf(t, p, syms);
    }
}

pub proof fn lemma_binary_wf(t: Seq<TokenView>, p: int, syms: Seq<Seq<char>>, level: int)
    requires
        parse_start(t, p, syms),
    ensures
        well_parsed(parse_binary(t, p, syms, level), p, t.len() as int, false),
    decreases t.len() - p, if level > 0 { level + 2 } else { 2 },
{
    if level <= 0 {
        lemma_unary_wf(t, p, syms);
    } else {
        lemma_binary_wf(t, p, syms, level - 1);
        match parse_binary(t, p, syms, level - 1) {
            Ok((lhs, q, sy)) => {
                lemma_binary_rest_wf(t, q, lhs, sy, level);
            },
            Err(_) => {},
        }
    }
}

pub proof fn lemma_binary_rest_wf(
    t: Seq<TokenView>,
    q: int,
    lhs: NodeView,
    syms: Seq<Seq<char>>,
    level: int,
)
    requires
        parse_start(t, q, syms),
        is_expr(lhs),
    ensures
        match binary_rest(t, q, lhs, syms, level) {
            Ok((node, r, sy)) => q <= r <= t.len() && sy.len() <= r && is_expr(node),
            Err(_) => true,
        },
    decreases t.len() - q, 0int,
{
    match binop_at(t, q, level) {
        None => {},
        Some((kind, swap)) => {
            assert(1 <= level <= 4);
            lemma_binary_wf(t, q + 1, syms, level - 1);
            match parse_binary(t, q + 1, syms, level - 1) {
                Ok((rhs, r, sy)) => {
                    let node = binary_node(kind, swap, lhs, rhs);
                    assert(is_expr(node));
                    lemma_binary_rest_wf(t, r, node, sy, level);
                },
                Err(_) => {},
            }
        },
    }
}

pub proof fn lemma_assign_wf(t: Seq<TokenView>, p: int, syms: Seq<Seq<char>>)
    requires
        parse_start(t, p, syms),
    ensures
        well_parsed(parse_assign(t, p, syms), p, t.len() as int, false),
    decreases t.len() - p, 7int,
{
    lemma_binary_wf(t, p, syms, 4);
    match parse_binary(t, p, syms, 4) {
        Ok((lhs, q, sy)) => {
            if is_op(t, q, OperatorKind::TkAssign) && lhs is LVar {
                lemma_assign_wf(t, q + 1, sy);
            }
        },
        Err(_) => {},
    }
}

pub proof fn lemma_terminated_wf(t: Seq<TokenView>, p: int, syms: Seq<Seq<char>>)
    requires
        parse_start(t, p, syms),
    ensures
        well_parsed(parse_terminated(t, p, syms), p, t.len() as int, false),
    decreases t.len() - p, 8int,
{
    lemma_assign_wf(t, p, syms);
}

pub proof fn lemma_stmt_wf(t: Seq<TokenView>, p: int, syms: Seq<Seq<char>>)
    requires
        parse_start(t, p, syms),
    ensures
        well_parsed(parse_stmt(t, p, syms), p, t.len() as int, true),
    decreases t.len() - p, 9int,
{
    if 0 <= p < t.len() {
        match t[p] {
            TokenView::Return => {
                lemma_terminated_wf(t, p + 1, syms);
            },
            TokenView::If => {
                if is_op(t, p + 1, OperatorKind::TkPrSt) {
                    lemma_assign_wf(t, p + 2, syms);
                    match parse_assign(t, p + 2, syms) {
                        Ok((c, q, sy)) => {
                            if is_op(t, q, OperatorKind::TkPrEd) {
                                lemma_stmt_wf(t, q + 1, sy);
                                match parse_stmt(t, q + 1, sy) {
                                    Ok((th, r, sy2)) => {
                                        if 0 <= r < t.len() && t[r] == TokenView::Else {
                                            lemma_stmt_wf(t, r + 1, sy2);
                                        } else {
                                            assert(is_stmt(no_else()) && if_count(no_else()) == 0);
                                        }
                                    },
                                    Err(_) => {},
                                }
                            }
                        },
                        Err(_) => {},
                    }
                }
            },
            TokenView::Operator(OperatorKind::TkBrSt) => {
                lemma_block_wf(t, p + 1, p, syms);
            },
            _ => {
                lemma_terminated_wf(t, p, syms);
                match parse_terminated(t, p, syms) {
                    Ok((e, q, sy)) => lemma_expr_is_stmt(e),
                    Err(_) => {},
                }
            },
        }
    }
}

pub proof fn lemma_block_wf(t: Seq<TokenView>, p: int, open: int, syms: Seq<Seq<char>>)
    requires
        parse_start(t, p, syms),
    ensures
        match parse_block(t, p, open, syms) {
            Ok((ss, q, sy)) => {
                &&& p < q <= t.len()
                &&& sy.len() <= q
                &&& are_stmts(ss)
                &&& if_count_seq(ss) <= q - p
            },
            Err(_) => true,
        },
    decreases t.len() - p, 10int,
{
    if 0 <= p < t.len() && t[p] != TokenView::Operator(OperatorKind::TkBrEd) {
        lemma_stmt_wf(t, p, syms);
        match parse_stmt(t, p, syms) {
            Ok((st, q, sy)) => {
                lemma_block_wf(t, q, open, sy);
                match parse_block(t, q, open, sy) {
                    Ok((ss, r, sy2)) => lemma_prepend_stmt(st, ss),
                    Err(_) => {},
                }
            },
            Err(_) => {},
        }
    }
}

/// A statement put in front of statements.
pub proof fn lemma_prepend_stmt(st: NodeView, ss: Seq<NodeView>)
    ensures
        are_stmts(seq![st] + ss) == (is_stmt(st) && are_stmts(ss)),
        if_count_seq(seq![st] + ss) == if_count(st) + if_count_seq(ss),
    decreases ss.len(),
{
    if ss.len() == 0 {
        let one = seq![st];
        assert(one + ss =~= one);
        assert(one.drop_last() =~= seq![]);
        assert(are_stmts(one.drop_last()) && if_count_seq(one.drop_last()) == 0);
        assert(one.last() == st);
    } else {
        lemma_prepend_stmt(st, ss.drop_last());
        assert((seq![st] + ss).drop_last() =~= seq![st] + ss.drop_last());
        assert((seq![st] + ss).last() == ss.last());
    }
}

/// A successful parse of the statements from `p` to the end builds
/// well-formed statements with at most one `if` per token.
pub proof fn lemma_program_wf(t: Seq<TokenView>, p: int, syms: Seq<Seq<char>>)
    requires
        parse_start(t, p, syms),
    ensures
        match parse_program(t, p, syms) {
            Ok((ss, sy)) => are_stmts(ss) && if_count_seq(ss) <= t.len() - p,
            Err(_) => true,
        },
    decreases t.len() - p,
{
    if 0 <= p < t.len() {
        lemma_stmt_wf(t, p, syms);
        match parse_stmt(t, p, syms) {
            Ok((st, q, sy)) => {
                lemma_program_wf(t, q, sy);
                match parse_program(t, q, sy) {
                    Ok((ss, sy2)) => lemma_prepend_stmt(st, ss),
                    Err(_) => {},
                }
            },
            Err(_) => {},
        }
    }
}

} // verus!
