//! The query compiler: the AST and its lowering to bytecode.
//!
//! Lowering emits, for each AST node, a contiguous run of instructions:
//!
//! * `Pattern`: one `Expect` per concrete column, ascending, then `Next`;
//! * `Concat`: the children's runs, back to back;
//! * `Union`: `Split` into the left run, `Jump` over the right run;
//! * `Star`: `Split` into the child's run, `Jump` back to the `Split`;
//! * `Empty`: nothing;
//!
//! and a final `Match` closes the program.

use vstd::prelude::*;
use crate::FeatId;
use crate::vm::{InstCode, RunOutcome, spec_int_exec};

verus! {

broadcast use vstd::std_specs::vec::axiom_vec_index_decreases;

/// One node of a parsed query.
///
/// A `Pattern` constrains one morpheme row: entry `c` is a feature ID the
/// row must carry at column `c`, or `None` for a wildcard.  Columns past
/// the pattern's length are unconstrained.
#[derive(Debug, PartialEq, Eq)]
pub enum Node {
    Pattern(Vec<Option<FeatId>>),
    Union(Box<Node>, Box<Node>),
    Concat(Vec<Node>),
    Star(Box<Node>),
    Empty,
}

/// The mathematical shape of a [`Node`]: the same tree over `Seq` instead
/// of `Vec`, so that contracts can build and take apart query trees.
pub enum NodeView {
    Pattern(Seq<Option<FeatId>>),
    Union(Box<NodeView>, Box<NodeView>),
    Concat(Seq<NodeView>),
    Star(Box<NodeView>),
    Empty,
}

pub open spec fn spec_node_view(node: Node) -> NodeView
    decreases node,
{
    match node {
        Node::Pattern(feats) => NodeView::Pattern(feats@),
        Node::Union(l, r) => NodeView::Union(
            Box::new(spec_node_view(*l)),
            Box::new(spec_node_view(*r)),
        ),
        Node::Concat(children) => NodeView::Concat(spec_node_view_list(children@)),
        Node::Star(child) => NodeView::Star(Box::new(spec_node_view(*child))),
        Node::Empty => NodeView::Empty,
    }
}

pub open spec fn spec_node_view_list(nodes: Seq<Node>) -> Seq<NodeView>
    decreases nodes,
{
    if nodes.len() == 0 {
        Seq::empty()
    } else {
        seq![spec_node_view(nodes[0])] + spec_node_view_list(nodes.drop_first())
    }
}

impl View for Node {
    type V = NodeView;

    open spec fn view(&self) -> NodeView {
        spec_node_view(*self)
    }
}

/// `Expect` instructions for the concrete columns of a pattern, from
/// column `c` up, in ascending column order.
pub open spec fn spec_expects(feats: Seq<Option<FeatId>>, c: int) -> Seq<InstCode>
    decreases feats.len() - c,
{
    if c < 0 || c >= feats.len() {
        Seq::empty()
    } else {
        (match feats[c] {
            Some(id) => seq![InstCode::Expect(c as usize, id)],
            None => Seq::empty(),
        }) + spec_expects(feats, c + 1)
    }
}

/// The run of instructions one pattern lowers to.
pub open spec fn spec_pattern_insts(feats: Seq<Option<FeatId>>) -> Seq<InstCode> {
    spec_expects(feats, 0) + seq![InstCode::Next]
}

/// The run of instructions a node lowers to when placed at offset `pc`.
pub open spec fn spec_compile(node: NodeView, pc: int) -> Seq<InstCode>
    decreases node,
{
    match node {
        NodeView::Pattern(feats) => spec_pattern_insts(feats),
        NodeView::Concat(children) => spec_compile_list(children, pc),
        NodeView::Union(l, r) => {
            let a = spec_compile(*l, pc + 1);
            let b = spec_compile(*r, pc + 2 + a.len());
            seq![InstCode::Split((pc + 1) as usize, (pc + 2 + a.len()) as usize)] + a + seq![
                InstCode::Jump((pc + 2 + a.len() + b.len()) as usize),
            ] + b
        },
        NodeView::Star(child) => {
            let c = spec_compile(*child, pc + 1);
            seq![InstCode::Split((pc + 1) as usize, (pc + 2 + c.len()) as usize)] + c + seq![
                InstCode::Jump(pc as usize),
            ]
        },
        NodeView::Empty => Seq::empty(),
    }
}

/// The runs of a list of nodes, back to back, starting at offset `pc`.
pub open spec fn spec_compile_list(children: Seq<NodeView>, pc: int) -> Seq<InstCode>
    decreases children,
{
    if children.len() == 0 {
        Seq::empty()
    } else {
        let first = spec_compile(children[0], pc);
        first + spec_compile_list(children.drop_first(), pc + first.len())
    }
}

/// The whole program a query tree compiles to.
pub open spec fn spec_compile_program(node: NodeView) -> Seq<InstCode> {
    spec_compile(node, 0).push(InstCode::Match)
}

/// Lowers `node` in place at the end of `out`.
fn lower(node: &Node, out: &mut Vec<InstCode>)
    ensures
        final(out)@ == old(out)@ + spec_compile(node@, old(out)@.len() as int),
    decreases *node,
{
    let ghost base = out@.len() as int;
    match node {
        Node::Pattern(feats) => {
            let ghost before = out@;
            let mut c: usize = 0;
            while c < feats.len()
                invariant
                    0 <= c <= feats.len(),
                    out@ + spec_expects(feats@, c as int) == before + spec_expects(feats@, 0),
                decreases feats.len() - c,
            {
                if let Some(id) = feats[c] {
                    out.push(InstCode::Expect(c, id));
                }
                c += 1;
            }
            out.push(InstCode::Next);
            proof {
                assert(out@ =~= before + spec_pattern_insts(feats@));
                assert(node@ == NodeView::Pattern(feats@));
            }
        },
        Node::Concat(children) => {
            let ghost before = out@;
            let ghost views = spec_node_view_list(children@);
            let mut i: usize = 0;
            proof {
                assert(children@.skip(0) =~= children@);
                lemma_node_view_list_len(children@);
            }
            while i < children.len()
                invariant
                    0 <= i <= children.len(),
                    before + spec_compile_list(views, base) == out@ + spec_compile_list(
                        spec_node_view_list(children@.skip(i as int)),
                        out@.len() as int,
                    ),
                decreases children.len() - i,
            {
                let ghost cur_len = out@.len() as int;
                let ghost vs = spec_node_view_list(children@.skip(i as int));
                proof {
                    assert(decreases_to!(*node => children@[i as int]));
                    lemma_node_view_list_skip_first(children@, i as int);
                    assert(vs[0] == spec_node_view(children@[i as int]));
                    assert(vs.drop_first() =~= spec_node_view_list(children@.skip(i as int + 1)));
                }
                lower(&children[i], out);
                proof {
                    assert(spec_compile_list(vs, cur_len) == spec_compile(vs[0], cur_len)
                        + spec_compile_list(vs.drop_first(), cur_len + spec_compile(vs[0], cur_len).len()));
                }
                i += 1;
            }
            proof {
                assert(children@.skip(children@.len() as int) =~= Seq::<Node>::empty());
                assert(out@ =~= before + spec_compile_list(views, base));
                assert(node@ == NodeView::Concat(views));
            }
        },
        Node::Union(l, r) => {
            let split_at = out.len();
            out.push(InstCode::Noop);
            let after_split = out.len();
            lower(&**l, out);
            let jump_at = out.len();
            out.push(InstCode::Noop);
            let after_jump = out.len();
            lower(&**r, out);
            let end = out.len();
            out[split_at] = InstCode::Split(after_split, after_jump);
            out[jump_at] = InstCode::Jump(end);
            proof {
                let a = spec_compile((**l)@, base + 1);
                let b = spec_compile((**r)@, base + 2 + a.len());
                assert(node@ == NodeView::Union(Box::new((**l)@), Box::new((**r)@)));
                assert(out@ =~= old(out)@ + spec_compile(node@, base));
            }
        },
        Node::Star(child) => {
            let split_at = out.len();
            out.push(InstCode::Noop);
            let after_split = out.len();
            lower(&**child, out);
            out.push(InstCode::Jump(split_at));
            let end = out.len();
            out[split_at] = InstCode::Split(after_split, end);
            proof {
                assert(node@ == NodeView::Star(Box::new((**child)@)));
                assert(out@ =~= old(out)@ + spec_compile(node@, base));
            }
        },
        Node::Empty => {
            proof {
                assert(out@ =~= old(out)@ + spec_compile(node@, base));
            }
        },
    }
}

proof fn lemma_node_view_list_len(nodes: Seq<Node>)
    ensures
        spec_node_view_list(nodes).len() == nodes.len(),
    decreases nodes,
{
    if nodes.len() > 0 {
        lemma_node_view_list_len(nodes.drop_first());
    }
}

/// The view list of a suffix unfolds one element at a time.
proof fn lemma_node_view_list_skip_first(nodes: Seq<Node>, i: int)
    requires
        0 <= i < nodes.len(),
    ensures
        spec_node_view_list(nodes.skip(i)) == seq![spec_node_view(nodes[i])]
            + spec_node_view_list(nodes.skip(i + 1)),
{
    assert(nodes.skip(i).len() == nodes.len() - i);
    assert(nodes.skip(i)[0] == nodes[i]);
    assert(nodes.skip(i).drop_first() =~= nodes.skip(i + 1));
}

/// Compiles a query tree into a linear bytecode program.
pub fn compile(node: Node) -> (r: Vec<InstCode>)
    ensures
        r@ == spec_compile_program(node@),
{
    let mut out: Vec<InstCode> = Vec::new();
    lower(&node, &mut out);
    out.push(InstCode::Match);
    proof {
        assert(Seq::<InstCode>::empty() + spec_compile(node@, 0) =~= spec_compile(node@, 0));
    }
    out
}

/// Law: compilation is deterministic.  Any two runs of [`compile`] on equal
/// query trees yield identical bytecode, since each result equals
/// [`spec_compile_program`] of the tree.
pub proof fn lemma_compile_deterministic(node: Node, r1: Seq<InstCode>, r2: Seq<InstCode>)
    requires
        r1 == spec_compile_program(node@),
        r2 == spec_compile_program(node@),
    ensures
        r1 == r2,
{
}

// ---------------------------------------------------------------------------
// The query grammar:
//
//     Query    := Union EOF
//     Union    := Seq ('|' Seq)*
//     Seq      := Star+ | nothing
//     Star     := Factor '*'?
//     Factor   := Morpheme | '(' Union ')'
//     Morpheme := Feature ('-' Feature)*
//     Feature  := Integer | '/'
//     Integer  := [0-9]+
//
// Whitespace may follow a morpheme, `(`, `)`, `*` and `|`.  The parser
// descends over byte positions; each production's meaning is a spec
// function from a position to the parsed value and the next position, or
// nothing when the production does not apply there.
// ---------------------------------------------------------------------------

/// The production a failed parse was expecting, for the error message.
#[derive(Clone, Copy, Debug, PartialEq, Eq, Structural)]
pub enum Expected {
    Integer,
    Feature,
    Bare,
    Union,
}

/// A query that does not follow the grammar, with the byte position where
/// parsing stopped and the production expected there.
#[derive(Clone, Copy, Debug, PartialEq, Eq, Structural)]
pub struct ParseError {
    pub position: usize,
    pub expected: Expected,
}

pub open spec fn spec_is_digit(b: u8) -> bool {
    48 <= b <= 57
}

pub open spec fn spec_is_space(b: u8) -> bool {
    b == 32 || b == 9 || b == 10 || b == 13
}

/// The number a run of digit bytes denotes.
pub open spec fn spec_decimal_value(s: Seq<u8>) -> int
    decreases s.len(),
{
    if s.len() == 0 {
        0
    } else {
        spec_decimal_value(s.drop_last()) * 10 + (s.last() - 48)
    }
}

pub proof fn lemma_decimal_nonneg(s: Seq<u8>)
    requires
        forall|j: int| 0 <= j < s.len() ==> spec_is_digit(#[trigger] s[j]),
    ensures
        spec_decimal_value(s) >= 0,
    decreases s.len(),
{
    if s.len() > 0 {
        lemma_decimal_nonneg(s.drop_last());
    }
}

/// A digit run's value only grows as digits are appended.
pub proof fn lemma_decimal_prefix_le(s: Seq<u8>, k: int)
    requires
        forall|j: int| 0 <= j < s.len() ==> spec_is_digit(#[trigger] s[j]),
        0 <= k <= s.len(),
    ensures
        spec_decimal_value(s.take(k)) <= spec_decimal_value(s),
    decreases s.len() - k,
{
    if k == s.len() {
        assert(s.take(k) =~= s);
    } else {
        lemma_decimal_prefix_le(s, k + 1);
        assert(s.take(k + 1).drop_last() =~= s.take(k));
        assert(s.take(k + 1).last() == s[k]);
        assert forall|j: int| 0 <= j < s.take(k).len() implies spec_is_digit(
            #[trigger] s.take(k)[j],
        ) by {
            assert(s[j] == s.take(k)[j]);
        }
        lemma_decimal_nonneg(s.take(k));
    }
}

/// First position at or after `pos` that does not hold a space byte.
pub open spec fn spec_skip_spaces(s: Seq<u8>, pos: int) -> int
    decreases s.len() - pos,
{
    if 0 <= pos < s.len() && spec_is_space(s[pos]) {
        spec_skip_spaces(s, pos + 1)
    } else {
        pos
    }
}

pub proof fn lemma_skip_spaces_bounds(s: Seq<u8>, pos: int)
    ensures
        spec_skip_spaces(s, pos) >= pos,
        pos <= s.len() ==> spec_skip_spaces(s, pos) <= s.len(),
    decreases s.len() - pos,
{
    if 0 <= pos < s.len() && spec_is_space(s[pos]) {
        lemma_skip_spaces_bounds(s, pos + 1);
    }
}

/// First position at or after `pos` that does not hold a digit.
pub open spec fn spec_digit_run(s: Seq<u8>, pos: int) -> int
    decreases s.len() - pos,
{
    if 0 <= pos < s.len() && spec_is_digit(s[pos]) {
        spec_digit_run(s, pos + 1)
    } else {
        pos
    }
}

pub proof fn lemma_digit_run_bounds(s: Seq<u8>, pos: int)
    ensures
        spec_digit_run(s, pos) >= pos,
        pos <= s.len() ==> spec_digit_run(s, pos) <= s.len(),
        forall|j: int| pos <= j < spec_digit_run(s, pos) ==> spec_is_digit(#[trigger] s[j]),
    decreases s.len() - pos,
{
    if 0 <= pos < s.len() && spec_is_digit(s[pos]) {
        lemma_digit_run_bounds(s, pos + 1);
    }
}

/// `Integer := [0-9]+`, valued as a `u32`.  A run denoting a number beyond
/// `u32` does not parse.
pub open spec fn spec_parse_integer(s: Seq<u8>, pos: int) -> Option<(u32, int)> {
    if !(0 <= pos < s.len() && spec_is_digit(s[pos])) {
        None
    } else {
        let end = spec_digit_run(s, pos);
        let v = spec_decimal_value(s.subrange(pos, end));
        if v > u32::MAX {
            None
        } else {
            Some((v as u32, end))
        }
    }
}

/// `Feature := Integer | '/'`: a concrete feature ID or a wildcard.
pub open spec fn spec_parse_feature(s: Seq<u8>, pos: int) -> Option<(Option<u32>, int)> {
    if 0 <= pos < s.len() && spec_is_digit(s[pos]) {
        match spec_parse_integer(s, pos) {
            Some((v, p)) => Some((Some(v), p)),
            None => None,
        }
    } else if 0 <= pos < s.len() && s[pos] == 47 {
        Some((None, pos + 1))
    } else {
        None
    }
}

/// The `('-' Feature)*` tail of a morpheme.  A `-` must be followed by a
/// feature; without one the whole morpheme fails.
pub open spec fn spec_morpheme_tail(s: Seq<u8>, pos: int, acc: Seq<Option<u32>>) -> Option<
    (Seq<Option<u32>>, int),
>
    decreases s.len() - pos,
{
    if 0 <= pos < s.len() && s[pos] == 45 {
        match spec_parse_feature(s, pos + 1) {
            Some((f, p)) => if pos < p <= s.len() {
                spec_morpheme_tail(s, p, acc.push(f))
            } else {
                None
            },
            None => None,
        }
    } else {
        Some((acc, pos))
    }
}

/// `Morpheme := Feature ('-' Feature)*`, then spaces; the features become
/// one pattern, position within the morpheme naming the column.
pub open spec fn spec_parse_morpheme(s: Seq<u8>, pos: int) -> Option<(NodeView, int)> {
    match spec_parse_feature(s, pos) {
        Some((f, p)) => match spec_morpheme_tail(s, p, seq![f]) {
            Some((feats, p2)) => Some((NodeView::Pattern(feats), spec_skip_spaces(s, p2))),
            None => None,
        },
        None => None,
    }
}

/// `Factor := Morpheme | '(' Union ')'`, spaces after `(` and `)`.
pub open spec fn spec_parse_factor(s: Seq<u8>, pos: int) -> Option<(NodeView, int)>
    decreases s.len() - pos, 0int,
{
    if 0 <= pos < s.len() && (spec_is_digit(s[pos]) || s[pos] == 47) {
        spec_parse_morpheme(s, pos)
    } else if 0 <= pos < s.len() && s[pos] == 40 {
        let p1 = spec_skip_spaces(s, pos + 1);
        if pos < p1 <= s.len() {
            match spec_parse_subexpr(s, p1) {
                Some((n, p2)) => if 0 <= p2 < s.len() && s[p2] == 41 {
                    Some((n, spec_skip_spaces(s, p2 + 1)))
                } else {
                    None
                },
                None => None,
            }
        } else {
            None
        }
    } else {
        None
    }
}

/// `Star := Factor '*'?`, spaces after `*`.
pub open spec fn spec_parse_star(s: Seq<u8>, pos: int) -> Option<(NodeView, int)>
    decreases s.len() - pos, 1int,
{
    match spec_parse_factor(s, pos) {
        Some((n, p)) => if 0 <= p < s.len() && s[p] == 42 {
            Some((NodeView::Star(Box::new(n)), spec_skip_spaces(s, p + 1)))
        } else {
            Some((n, p))
        },
        None => None,
    }
}

/// The `Star*` tail of a sequence: stars as long as one applies.
pub open spec fn spec_subseq_tail(s: Seq<u8>, pos: int, acc: Seq<NodeView>) -> (Seq<NodeView>, int)
    decreases s.len() - pos, 2int,
{
    match spec_parse_star(s, pos) {
        // A star always consumes input and stays inside it, so the guard
        // only keeps the recursion well-founded; its other branch cannot
        // run.
        Some((n, p)) => if pos < p <= s.len() {
            spec_subseq_tail(s, p, acc.push(n))
        } else {
            (acc.push(n), pos)
        },
        None => (acc, pos),
    }
}

/// `Seq := Star+`: one or more stars, gathered into a concatenation.
pub open spec fn spec_parse_subseq(s: Seq<u8>, pos: int) -> Option<(NodeView, int)>
    decreases s.len() - pos, 3int,
{
    match spec_parse_star(s, pos) {
        Some((n, p)) => if pos <= p <= s.len() {
            let t = spec_subseq_tail(s, p, seq![n]);
            Some((NodeView::Concat(t.0), t.1))
        } else {
            None
        },
        None => None,
    }
}

/// A possibly empty sequence: `Star+` or nothing at all.
pub open spec fn spec_parse_seq(s: Seq<u8>, pos: int) -> (NodeView, int)
    decreases s.len() - pos, 4int,
{
    match spec_parse_subseq(s, pos) {
        Some((n, p)) => (n, p),
        None => (NodeView::Empty, pos),
    }
}

/// The `('|' Seq)*` tail of a union, folded to the left.
pub open spec fn spec_union_tail(s: Seq<u8>, pos: int, acc: NodeView) -> (NodeView, int)
    decreases s.len() - pos, 5int,
{
    if 0 <= pos < s.len() && s[pos] == 124 {
        // The pipe is consumed and no production moves backwards, so the
        // position guards only keep the recursion well-founded.
        let p1 = spec_skip_spaces(s, pos + 1);
        if pos < p1 <= s.len() {
            let (n, p2) = spec_parse_seq(s, p1);
            if p1 <= p2 <= s.len() {
                spec_union_tail(s, p2, NodeView::Union(Box::new(acc), Box::new(n)))
            } else {
                (acc, pos)
            }
        } else {
            (acc, pos)
        }
    } else {
        (acc, pos)
    }
}

/// `Union := Seq ('|' Seq)*`.
pub open spec fn spec_parse_subexpr(s: Seq<u8>, pos: int) -> Option<(NodeView, int)>
    decreases s.len() - pos, 6int,
{
    if 0 <= pos <= s.len() {
        let (n, p) = spec_parse_seq(s, pos);
        if pos <= p <= s.len() {
            Some(spec_union_tail(s, p, n))
        } else {
            None
        }
    } else {
        None
    }
}

/// `Query := Union EOF`: the whole input, or nothing.
pub open spec fn spec_parse_query(s: Seq<u8>) -> Option<NodeView> {
    match spec_parse_subexpr(s, 0) {
        Some((n, p)) => if p == s.len() {
            Some(n)
        } else {
            None
        },
        None => None,
    }
}

/// The simplification a parsed tree goes through: a concatenation of one
/// child collapses to that child, recursively; nothing else changes.
pub open spec fn spec_optimize(node: NodeView) -> NodeView
    decreases node,
{
    match node {
        NodeView::Pattern(_) => node,
        NodeView::Union(l, r) => NodeView::Union(
            Box::new(spec_optimize(*l)),
            Box::new(spec_optimize(*r)),
        ),
        NodeView::Concat(children) => if children.len() == 1 {
            spec_optimize(children[0])
        } else {
            NodeView::Concat(spec_optimize_list(children))
        },
        NodeView::Star(child) => NodeView::Star(Box::new(spec_optimize(*child))),
        NodeView::Empty => node,
    }
}

pub open spec fn spec_optimize_list(children: Seq<NodeView>) -> Seq<NodeView>
    decreases children,
{
    if children.len() == 0 {
        Seq::empty()
    } else {
        seq![spec_optimize(children[0])] + spec_optimize_list(children.drop_first())
    }
}

/// Appending a node appends its view.
proof fn lemma_node_view_list_push(nodes: Seq<Node>, n: Node)
    ensures
        spec_node_view_list(nodes.push(n)) == spec_node_view_list(nodes) + seq![
            spec_node_view(n),
        ],
    decreases nodes.len(),
{
    if nodes.len() == 0 {
        assert(nodes.push(n).drop_first() =~= Seq::<Node>::empty());
        assert(nodes =~= Seq::<Node>::empty());
        assert(spec_node_view_list(nodes.push(n)) =~= spec_node_view_list(nodes) + seq![
            spec_node_view(n),
        ]);
    } else {
        lemma_node_view_list_push(nodes.drop_first(), n);
        assert(nodes.push(n).drop_first() =~= nodes.drop_first().push(n));
        assert(nodes.push(n)[0] == nodes[0]);
        assert(spec_node_view_list(nodes.push(n)) =~= spec_node_view_list(nodes) + seq![
            spec_node_view(n),
        ]);
    }
}

/// Applies [`spec_optimize`] to a parsed tree.
fn optimize(node: Node) -> (r: Node)
    ensures
        r@ == spec_optimize(node@),
{
    optimize_ref(&node)
}

/// Simplifies a tree, reading it in place.
fn optimize_ref(node: &Node) -> (r: Node)
    ensures
        r@ == spec_optimize(node@),
    decreases *node,
{
    match node {
        Node::Pattern(feats) => {
            let mut copy: Vec<Option<FeatId>> = Vec::new();
            let mut i: usize = 0;
            while i < feats.len()
                invariant
                    0 <= i <= feats@.len(),
                    copy@ == feats@.take(i as int),
                decreases feats@.len() - i,
            {
                copy.push(feats[i]);
                proof {
                    assert(feats@.take(i + 1) =~= feats@.take(i as int).push(feats@[i as int]));
                }
                i += 1;
            }
            proof {
                assert(feats@.take(feats@.len() as int) =~= feats@);
                assert(node@ == NodeView::Pattern(feats@));
            }
            Node::Pattern(copy)
        },
        Node::Union(l, r) => {
            let lo = optimize_ref(&**l);
            let ro = optimize_ref(&**r);
            proof {
                assert(node@ == NodeView::Union(Box::new((**l)@), Box::new((**r)@)));
            }
            Node::Union(Box::new(lo), Box::new(ro))
        },
        Node::Concat(children) => {
            proof {
                lemma_node_view_list_len(children@);
                assert(node@ == NodeView::Concat(spec_node_view_list(children@)));
            }
            if children.len() == 1 {
                proof {
                    assert(spec_node_view_list(children@)[0] == spec_node_view(children@[0]));
                }
                optimize_ref(&children[0])
            } else {
                let ghost orig = children@;
                let ghost views = spec_node_view_list(orig);
                let mut out: Vec<Node> = Vec::new();
                let mut i: usize = 0;
                proof {
                    assert(orig.skip(0) =~= orig);
                    assert(spec_node_view_list(out@) + spec_optimize_list(
                        spec_node_view_list(orig.skip(0)),
                    ) =~= spec_optimize_list(views));
                }
                while i < children.len()
                    invariant
                        0 <= i <= children@.len(),
                        children@ == orig,
                        out@.len() == i,
                        spec_node_view_list(out@) + spec_optimize_list(
                            spec_node_view_list(orig.skip(i as int)),
                        ) == spec_optimize_list(views),
                    decreases children@.len() - i,
                {
                    proof {
                        assert(decreases_to!(*node => children@[i as int]));
                        lemma_node_view_list_skip_first(orig, i as int);
                    }
                    let ghost vs = spec_node_view_list(orig.skip(i as int));
                    proof {
                        assert(vs[0] == spec_node_view(orig[i as int]));
                        assert(vs.drop_first() =~= spec_node_view_list(orig.skip(i as int + 1)));
                    }
                    let oc = optimize_ref(&children[i]);
                    let ghost out_before = out@;
                    out.push(oc);
                    proof {
                        lemma_node_view_list_push(out_before, oc);
                        assert(spec_node_view_list(out@) =~= spec_node_view_list(out_before)
                            + seq![spec_node_view(oc)]);
                        assert(spec_optimize_list(vs) == seq![spec_optimize(vs[0])]
                            + spec_optimize_list(vs.drop_first()));
                        assert(spec_node_view_list(out@) + spec_optimize_list(
                            spec_node_view_list(orig.skip(i as int + 1)),
                        ) =~= spec_optimize_list(views));
                    }
                    i += 1;
                }
                proof {
                    assert(orig.skip(orig.len() as int) =~= Seq::<Node>::empty());
                    assert(spec_node_view_list(out@) =~= spec_optimize_list(views));
                }
                Node::Concat(out)
            }
        },
        Node::Star(child) => {
            let co = optimize_ref(&**child);
            proof {
                assert(node@ == NodeView::Star(Box::new((**child)@)));
            }
            Node::Star(Box::new(co))
        },
        Node::Empty => {
            proof {
                assert(node@ == NodeView::Empty);
            }
            Node::Empty
        },
    }
}

fn skip_spaces_from(s: &[u8], pos: usize) -> (r: usize)
    requires
        pos <= s@.len(),
    ensures
        r == spec_skip_spaces(s@, pos as int),
        pos <= r <= s@.len(),
{
    let mut i = pos;
    while i < s.len() && (s[i] == 32 || s[i] == 9 || s[i] == 10 || s[i] == 13)
        invariant
            pos <= i <= s@.len(),
            spec_skip_spaces(s@, pos as int) == spec_skip_spaces(s@, i as int),
        decreases s@.len() - i,
    {
        i += 1;
    }
    i
}

/// Exactly where the digit run starting at `pos` ends.
proof fn lemma_digit_run_at(s: Seq<u8>, pos: int, m: int)
    requires
        0 <= pos <= m <= s.len(),
        forall|j: int| pos <= j < m ==> spec_is_digit(#[trigger] s[j]),
        m == s.len() || !spec_is_digit(s[m]),
    ensures
        spec_digit_run(s, pos) == m,
    decreases m - pos,
{
    if pos < m {
        lemma_digit_run_at(s, pos + 1, m);
    }
}

fn p_integer(s: &[u8], pos: usize) -> (r: Result<(u32, usize), ParseError>)
    requires
        pos <= s@.len(),
    ensures
        r matches Ok((v, p)) ==> spec_parse_integer(s@, pos as int) == Some((v, p as int)) && pos
            < p <= s@.len(),
        r is Err ==> spec_parse_integer(s@, pos as int) is None,
{
    if pos >= s.len() || !(48 <= s[pos] && s[pos] <= 57) {
        return Err(ParseError { position: pos, expected: Expected::Integer });
    }
    let mut end = pos;
    while end < s.len() && 48 <= s[end] && s[end] <= 57
        invariant
            pos <= end <= s@.len(),
            forall|j: int| pos <= j < end ==> spec_is_digit(#[trigger] s@[j]),
        decreases s@.len() - end,
    {
        end += 1;
    }
    proof {
        lemma_digit_run_at(s@, pos as int, end as int);
    }
    let ghost digits = s@.subrange(pos as int, end as int);
    let mut acc: u64 = 0;
    let mut j = pos;
    proof {
        assert(digits.take(0) =~= Seq::<u8>::empty());
    }
    while j < end
        invariant
            pos <= j <= end <= s@.len(),
            forall|k: int| pos <= k < end ==> spec_is_digit(#[trigger] s@[k]),
            digits == s@.subrange(pos as int, end as int),
            acc == spec_decimal_value(digits.take(j - pos)),
            acc <= u32::MAX,
        decreases end - j,
    {
        let d = s[j] - 48;
        acc = acc * 10 + (d as u64);
        proof {
            assert(digits.take(j - pos + 1).drop_last() =~= digits.take(j - pos));
            assert(digits.take(j - pos + 1).last() == s@[j as int]);
        }
        j += 1;
        if acc > u32::MAX as u64 {
            proof {
                assert forall|k: int| 0 <= k < digits.len() implies spec_is_digit(
                    #[trigger] digits[k],
                ) by {
                    assert(digits[k] == s@[pos + k]);
                }
                lemma_decimal_prefix_le(digits, j - pos);
            }
            return Err(ParseError { position: pos, expected: Expected::Integer });
        }
    }
    proof {
        assert(digits.take(end - pos) =~= digits);
    }
    Ok((acc as u32, end))
}

fn p_feature(s: &[u8], pos: usize) -> (r: Result<(Option<u32>, usize), ParseError>)
    requires
        pos <= s@.len(),
    ensures
        r matches Ok((f, p)) ==> spec_parse_feature(s@, pos as int) == Some((f, p as int)) && pos
            < p <= s@.len(),
        r is Err ==> spec_parse_feature(s@, pos as int) is None,
{
    if pos < s.len() && 48 <= s[pos] && s[pos] <= 57 {
        match p_integer(s, pos) {
            Ok((v, p)) => Ok((Some(v), p)),
            Err(e) => Err(e),
        }
    } else if pos < s.len() && s[pos] == 47 {
        Ok((None, pos + 1))
    } else {
        Err(ParseError { position: pos, expected: Expected::Feature })
    }
}

fn p_morpheme_tail(s: &[u8], pos: usize, acc: Vec<Option<u32>>) -> (r: Result<
    (Vec<Option<u32>>, usize),
    ParseError,
>)
    requires
        pos <= s@.len(),
    ensures
        r matches Ok((feats, p)) ==> spec_morpheme_tail(s@, pos as int, acc@) == Some(
            (feats@, p as int),
        ) && pos <= p <= s@.len(),
        r is Err ==> spec_morpheme_tail(s@, pos as int, acc@) is None,
    decreases s@.len() - pos,
{
    if pos < s.len() && s[pos] == 45 {
        match p_feature(s, pos + 1) {
            Ok((f, p)) => {
                let mut acc = acc;
                acc.push(f);
                p_morpheme_tail(s, p, acc)
            },
            Err(e) => Err(e),
        }
    } else {
        Ok((acc, pos))
    }
}

fn p_morpheme(s: &[u8], pos: usize) -> (r: Result<(Node, usize), ParseError>)
    requires
        pos <= s@.len(),
    ensures
        r matches Ok((n, p)) ==> spec_parse_morpheme(s@, pos as int) == Some((n@, p as int)) && pos
            < p <= s@.len(),
        r is Err ==> spec_parse_morpheme(s@, pos as int) is None,
{
    match p_feature(s, pos) {
        Ok((f, p)) => {
            let mut feats: Vec<Option<u32>> = Vec::new();
            feats.push(f);
            proof {
                assert(feats@ =~= seq![f]);
            }
            match p_morpheme_tail(s, p, feats) {
                Ok((all, p2)) => {
                    let after = skip_spaces_from(s, p2);
                    let node = Node::Pattern(all);
                    proof {
                        assert(node@ == NodeView::Pattern(node->Pattern_0@));
                    }
                    Ok((node, after))
                },
                Err(e) => Err(e),
            }
        },
        Err(e) => Err(e),
    }
}

fn p_factor(s: &[u8], pos: usize) -> (r: Result<(Node, usize), ParseError>)
    requires
        pos <= s@.len(),
    ensures
        r matches Ok((n, p)) ==> spec_parse_factor(s@, pos as int) == Some((n@, p as int)) && pos
            < p <= s@.len(),
        r is Err ==> spec_parse_factor(s@, pos as int) is None,
    decreases s@.len() - pos, 0int,
{
    if pos < s.len() && (48 <= s[pos] && s[pos] <= 57 || s[pos] == 47) {
        p_morpheme(s, pos)
    } else if pos < s.len() && s[pos] == 40 {
        let p1 = skip_spaces_from(s, pos + 1);
        match p_subexpr(s, p1) {
            Ok((n, p2)) => {
                if p2 < s.len() && s[p2] == 41 {
                    let after = skip_spaces_from(s, p2 + 1);
                    Ok((n, after))
                } else {
                    Err(ParseError { position: p2, expected: Expected::Union })
                }
            },
            Err(e) => Err(e),
        }
    } else {
        Err(ParseError { position: pos, expected: Expected::Bare })
    }
}

fn p_star(s: &[u8], pos: usize) -> (r: Result<(Node, usize), ParseError>)
    requires
        pos <= s@.len(),
    ensures
        r matches Ok((n, p)) ==> spec_parse_star(s@, pos as int) == Some((n@, p as int)) && pos < p
            <= s@.len(),
        r is Err ==> spec_parse_star(s@, pos as int) is None,
    decreases s@.len() - pos, 1int,
{
    match p_factor(s, pos) {
        Ok((n, p)) => {
            if p < s.len() && s[p] == 42 {
                let after = skip_spaces_from(s, p + 1);
                let node = Node::Star(Box::new(n));
                proof {
                    assert(node@ == NodeView::Star(Box::new(node->Star_0@)));
                }
                Ok((node, after))
            } else {
                Ok((n, p))
            }
        },
        Err(e) => Err(e),
    }
}

fn p_subseq_tail(s: &[u8], pos: usize, acc: Vec<Node>) -> (r: (Vec<Node>, usize))
    requires
        pos <= s@.len(),
    ensures
        (spec_node_view_list(r.0@), r.1 as int) == spec_subseq_tail(
            s@,
            pos as int,
            spec_node_view_list(acc@),
        ),
        pos <= r.1 <= s@.len(),
    decreases s@.len() - pos, 2int,
{
    match p_star(s, pos) {
        Ok((n, p)) => {
            let mut acc = acc;
            let ghost acc_before = acc@;
            acc.push(n);
            proof {
                lemma_node_view_list_push(acc_before, n);
                assert(spec_node_view_list(acc@) =~= spec_node_view_list(acc_before).push(n@));
            }
            p_subseq_tail(s, p, acc)
        },
        Err(_) => (acc, pos),
    }
}

fn p_subseq(s: &[u8], pos: usize) -> (r: Result<(Node, usize), ParseError>)
    requires
        pos <= s@.len(),
    ensures
        r matches Ok((n, p)) ==> spec_parse_subseq(s@, pos as int) == Some((n@, p as int)) && pos
            <= p <= s@.len(),
        r is Err ==> spec_parse_subseq(s@, pos as int) is None,
    decreases s@.len() - pos, 3int,
{
    match p_star(s, pos) {
        Ok((n, p)) => {
            let mut items: Vec<Node> = Vec::new();
            let ghost empty_items = items@;
            items.push(n);
            proof {
                lemma_node_view_list_push(empty_items, n);
                assert(spec_node_view_list(empty_items) =~= Seq::<NodeView>::empty());
                assert(spec_node_view_list(items@) =~= seq![n@]);
            }
            let (all, p2) = p_subseq_tail(s, p, items);
            let node = Node::Concat(all);
            proof {
                assert(node@ == NodeView::Concat(spec_node_view_list(node->Concat_0@)));
            }
            Ok((node, p2))
        },
        Err(e) => Err(e),
    }
}

fn p_seq(s: &[u8], pos: usize) -> (r: (Node, usize))
    requires
        pos <= s@.len(),
    ensures
        (r.0@, r.1 as int) == spec_parse_seq(s@, pos as int),
        pos <= r.1 <= s@.len(),
    decreases s@.len() - pos, 4int,
{
    match p_subseq(s, pos) {
        Ok((n, p)) => (n, p),
        Err(_) => (Node::Empty, pos),
    }
}

fn p_union_tail(s: &[u8], pos: usize, acc: Node) -> (r: (Node, usize))
    requires
        pos <= s@.len(),
    ensures
        (r.0@, r.1 as int) == spec_union_tail(s@, pos as int, acc@),
        pos <= r.1 <= s@.len(),
    decreases s@.len() - pos, 5int,
{
    if pos < s.len() && s[pos] == 124 {
        let p1 = skip_spaces_from(s, pos + 1);
        let (n, p2) = p_seq(s, p1);
        let joined = Node::Union(Box::new(acc), Box::new(n));
        proof {
            assert(joined@ == NodeView::Union(
                Box::new(joined->Union_0@),
                Box::new(joined->Union_1@),
            ));
        }
        p_union_tail(s, p2, joined)
    } else {
        (acc, pos)
    }
}

fn p_subexpr(s: &[u8], pos: usize) -> (r: Result<(Node, usize), ParseError>)
    requires
        pos <= s@.len(),
    ensures
        r matches Ok((n, p)) ==> spec_parse_subexpr(s@, pos as int) == Some((n@, p as int)) && pos
            <= p <= s@.len(),
        r is Err ==> spec_parse_subexpr(s@, pos as int) is None,
    decreases s@.len() - pos, 6int,
{
    let (n, p) = p_seq(s, pos);
    let (u, p2) = p_union_tail(s, p, n);
    Ok((u, p2))
}

/// Parses a query into its simplified tree.  Succeeds exactly on the
/// queries the grammar derives; a malformed query reports the byte position
/// where parsing stopped.
pub fn parse(query: &[u8]) -> (r: Result<Node, ParseError>)
    ensures
        r matches Ok(node) ==> (spec_parse_query(query@) matches Some(nv) && node@
            == spec_optimize(nv)),
        r is Err <==> spec_parse_query(query@) is None,
{
    match p_subexpr(query, 0) {
        Ok((n, p)) => {
            if p == query.len() {
                Ok(optimize(n))
            } else {
                Err(ParseError { position: p, expected: Expected::Union })
            }
        },
        Err(e) => Err(e),
    }
}

// ---------------------------------------------------------------------------
// What compiled programs mean to the matching machine.
// ---------------------------------------------------------------------------

/// A row satisfies a pattern: every concrete column of the pattern holds
/// the row's feature ID there.  Wildcards and columns past the pattern's
/// length constrain nothing.
pub open spec fn spec_row_matches(feats: Seq<Option<FeatId>>, cols: Seq<Seq<FeatId>>, sp: int) -> bool {
    spec_row_matches_from(feats, cols, sp, 0)
}

/// The same, for the pattern's columns from `c` up.
pub open spec fn spec_row_matches_from(
    feats: Seq<Option<FeatId>>,
    cols: Seq<Seq<FeatId>>,
    sp: int,
    c: int,
) -> bool {
    forall|d: int|
        c <= d < feats.len() ==> ((#[trigger] feats[d]) matches Some(id) ==> cols[d][sp] == id)
}

/// A sentence slice in which every column has the same height.
pub open spec fn spec_even_cols(cols: Seq<Seq<FeatId>>) -> bool {
    &&& cols.len() > 0
    &&& forall|d: int| 0 <= d < cols.len() ==> (#[trigger] cols[d]).len() == cols[0].len()
    &&& cols[0].len() <= usize::MAX
}

proof fn lemma_expects_len(feats: Seq<Option<FeatId>>, c: int)
    ensures
        0 <= c <= feats.len() ==> spec_expects(feats, c).len() <= feats.len() - c,
        (c < 0 || c > feats.len()) ==> spec_expects(feats, c).len() == 0,
    decreases feats.len() - c,
{
    if 0 <= c < feats.len() {
        lemma_expects_len(feats, c + 1);
    }
}

/// Running the `Expect` run of a pattern's columns from `c` up: if the row
/// satisfies them all, execution walks through to the instruction after the
/// run, one step and one fuel per instruction; if not, this path fails.
proof fn lemma_expects_run(
    prog: Seq<InstCode>,
    cols: Seq<Seq<FeatId>>,
    feats: Seq<Option<FeatId>>,
    c: int,
    pc: int,
    sp: int,
    fuel: nat,
)
    requires
        spec_even_cols(cols),
        feats.len() + 5 <= usize::MAX,
        feats.len() <= cols.len(),
        0 <= c <= feats.len(),
        0 <= sp < cols[0].len(),
        0 <= pc,
        pc + spec_expects(feats, c).len() <= prog.len(),
        forall|k: int|
            0 <= k < spec_expects(feats, c).len() ==> #[trigger] prog[pc + k] == spec_expects(
                feats,
                c,
            )[k],
        fuel >= spec_expects(feats, c).len() + 1,
    ensures
        spec_row_matches_from(feats, cols, sp, c) ==> spec_int_exec(prog, cols, pc, sp, fuel)
            == spec_int_exec(
            prog,
            cols,
            pc + spec_expects(feats, c).len(),
            sp,
            (fuel - spec_expects(feats, c).len()) as nat,
        ),
        !spec_row_matches_from(feats, cols, sp, c) ==> spec_int_exec(prog, cols, pc, sp, fuel)
            == RunOutcome::NoMatch,
    decreases feats.len() - c,
{
    lemma_expects_len(feats, c);
    if c == feats.len() {
        assert(spec_expects(feats, c).len() == 0);
        assert(spec_row_matches_from(feats, cols, sp, c));
    } else {
        let rest = spec_expects(feats, c + 1);
        match feats[c] {
            Some(id) => {
                let cur = spec_expects(feats, c);
                assert(cur == seq![InstCode::Expect(c as usize, id)] + rest);
                assert(cur[0] == InstCode::Expect(c as usize, id));
                assert(prog[pc + 0] == cur[0]);
                assert(prog[pc] == InstCode::Expect(c as usize, id));
                assert forall|k: int| 0 <= k < rest.len() implies #[trigger] prog[pc + 1 + k]
                    == rest[k] by {
                    assert(prog[pc + (k + 1)] == cur[k + 1]);
                }
                if cols[c][sp] == id {
                    lemma_expects_run(prog, cols, feats, c + 1, pc + 1, sp, (fuel - 1) as nat);
                    if spec_row_matches_from(feats, cols, sp, c + 1) {
                        assert(spec_row_matches_from(feats, cols, sp, c));
                    } else {
                        assert(!spec_row_matches_from(feats, cols, sp, c));
                    }
                } else {
                    assert(feats[c] matches Some(i2) && cols[c][sp] != i2);
                    assert(!spec_row_matches_from(feats, cols, sp, c));
                    assert(spec_int_exec(prog, cols, pc, sp, fuel) == RunOutcome::NoMatch);
                }
            },
            None => {
                assert(spec_expects(feats, c) =~= rest);
                lemma_expects_run(prog, cols, feats, c + 1, pc, sp, fuel);
                assert(spec_row_matches_from(feats, cols, sp, c) == spec_row_matches_from(
                    feats,
                    cols,
                    sp,
                    c + 1,
                ));
            },
        }
    }
}

/// Law: pattern semantics.  The compiled program of a single pattern,
/// started at row `sp` of a sentence slice, reports a match ending right
/// after `sp` exactly when the row satisfies every concrete column of the
/// pattern and the following row is still inside the sentence; otherwise it
/// reports no match.  Wildcards and missing trailing columns never
/// constrain the row.
pub proof fn lemma_pattern_semantics(
    feats: Seq<Option<FeatId>>,
    cols: Seq<Seq<FeatId>>,
    sp: int,
    fuel: nat,
)
    requires
        spec_even_cols(cols),
        feats.len() + 5 <= usize::MAX,
        feats.len() <= cols.len(),
        0 <= sp,
        fuel >= feats.len() + 3,
    ensures
        spec_int_exec(spec_compile_program(NodeView::Pattern(feats)), cols, 0, sp, fuel) == (if sp
            + 1 < cols[0].len() && spec_row_matches(feats, cols, sp) {
            RunOutcome::Matched((sp + 1) as usize)
        } else {
            RunOutcome::NoMatch
        }),
{
    let prog = spec_compile_program(NodeView::Pattern(feats));
    let ex = spec_expects(feats, 0);
    lemma_expects_len(feats, 0);
    assert(prog =~= ex + seq![InstCode::Next, InstCode::Match]);
    if sp >= cols[0].len() {
        assert(spec_int_exec(prog, cols, 0, sp, fuel) == RunOutcome::NoMatch);
    } else {
        lemma_expects_run(prog, cols, feats, 0, 0, sp, fuel);
        if spec_row_matches(feats, cols, sp) {
            let mid = (fuel - ex.len()) as nat;
            assert(prog[ex.len() as int] == InstCode::Next);
            assert(prog[ex.len() as int + 1] == InstCode::Match);
            assert(spec_int_exec(prog, cols, 0, sp, fuel) == spec_int_exec(
                prog,
                cols,
                ex.len() as int,
                sp,
                mid,
            ));
            assert(spec_int_exec(prog, cols, ex.len() as int, sp, mid) == spec_int_exec(
                prog,
                cols,
                ex.len() as int + 1,
                sp + 1,
                (mid - 1) as nat,
            ));
            if sp + 1 < cols[0].len() {
                assert(spec_int_exec(prog, cols, ex.len() as int + 1, sp + 1, (mid - 1) as nat)
                    == RunOutcome::Matched((sp + 1) as usize));
            } else {
                assert(spec_int_exec(prog, cols, ex.len() as int + 1, sp + 1, (mid - 1) as nat)
                    == RunOutcome::NoMatch);
            }
        }
    }
}

/// How far a greedy star over one pattern reaches from `sp`: it consumes
/// matching rows while the row after them is still inside the sentence,
/// and stops at the first row that does not match or at the sentence's
/// last row.
pub open spec fn spec_star_end(feats: Seq<Option<FeatId>>, cols: Seq<Seq<FeatId>>, sp: int) -> int
    decreases cols[0].len() - sp,
{
    if sp + 1 < cols[0].len() && spec_row_matches(feats, cols, sp) {
        spec_star_end(feats, cols, sp + 1)
    } else {
        sp
    }
}

/// Law: star preference.  The compiled program of `X*` for a pattern `X`,
/// started at a row inside the sentence, always reports a match, and the
/// reported end is the greedy one: the star consumes the longest run of
/// matching rows it can, not any shorter run.
pub proof fn lemma_star_greedy(
    feats: Seq<Option<FeatId>>,
    cols: Seq<Seq<FeatId>>,
    sp: int,
    fuel: nat,
)
    requires
        spec_even_cols(cols),
        feats.len() + 5 <= usize::MAX,
        feats.len() <= cols.len(),
        0 <= sp < cols[0].len(),
        fuel >= (cols[0].len() - sp) * (feats.len() + 5) + 4,
    ensures
        spec_int_exec(
            spec_compile_program(NodeView::Star(Box::new(NodeView::Pattern(feats)))),
            cols,
            0,
            sp,
            fuel,
        ) == RunOutcome::Matched(spec_star_end(feats, cols, sp) as usize),
        sp <= spec_star_end(feats, cols, sp) < cols[0].len(),
    decreases cols[0].len() - sp,
{
    let prog = spec_compile_program(NodeView::Star(Box::new(NodeView::Pattern(feats))));
    let ex = spec_expects(feats, 0);
    let e = ex.len() as int;
    lemma_expects_len(feats, 0);
    let inner = spec_compile(NodeView::Pattern(feats), 1);
    assert(inner == spec_pattern_insts(feats));
    assert(prog =~= seq![InstCode::Split(1, (e + 3) as usize)] + ex + seq![
        InstCode::Next,
        InstCode::Jump(0),
        InstCode::Match,
    ]);
    assert(prog[0] == InstCode::Split(1, (e + 3) as usize));
    assert(prog[e + 1] == InstCode::Next);
    assert(prog[e + 2] == InstCode::Jump(0));
    assert(prog[e + 3] == InstCode::Match);
    assert forall|k: int| 0 <= k < ex.len() implies #[trigger] prog[1 + k] == ex[k] by {
        assert(prog[1 + k] == (seq![InstCode::Split(1, (e + 3) as usize)] + ex + seq![
            InstCode::Next,
            InstCode::Jump(0),
            InstCode::Match,
        ])[1 + k]);
    }
    let n = cols[0].len() as int;
    let f1 = (fuel - 1) as nat;
    assert(f1 >= e + 4 && f1 - e >= 4) by (nonlinear_arith)
        requires
            fuel >= (n - sp) * (feats.len() + 5) + 4,
            f1 == fuel - 1,
            0 <= e <= feats.len() + 1,
            sp < n,
    ;
    // The first Split target runs the pattern once, then loops back.
    lemma_expects_run(prog, cols, feats, 0, 1, sp, f1);
    let first = spec_int_exec(prog, cols, 1, sp, f1);
    if spec_row_matches(feats, cols, sp) {
        let f2 = (f1 - e) as nat;
        assert(first == spec_int_exec(prog, cols, 1 + e, sp, f2));
        // Next
        assert(spec_int_exec(prog, cols, 1 + e, sp, f2) == spec_int_exec(
            prog,
            cols,
            e + 2,
            sp + 1,
            (f2 - 1) as nat,
        ));
        if sp + 1 < n {
            // Jump back to the Split
            assert(spec_int_exec(prog, cols, e + 2, sp + 1, (f2 - 1) as nat) == spec_int_exec(
                prog,
                cols,
                0,
                sp + 1,
                (f2 - 2) as nat,
            ));
            assert((f2 - 2) as nat >= (n - sp - 1) * (feats.len() + 5) + 4) by (nonlinear_arith)
                requires
                    fuel >= (n - sp) * (feats.len() + 5) + 4,
                    f1 == fuel - 1,
                    f2 == f1 - e,
                    0 <= e <= feats.len() + 1,
                    sp + 1 < n,
            ;
            lemma_star_greedy(feats, cols, sp + 1, (f2 - 2) as nat);
            assert(first == RunOutcome::Matched(spec_star_end(feats, cols, sp + 1) as usize));
            assert(spec_int_exec(prog, cols, 0, sp, fuel) == first);
        } else {
            // The row after the consumed one leaves the sentence: this
            // path fails and the second target reports the match here.
            assert(spec_int_exec(prog, cols, e + 2, sp + 1, (f2 - 1) as nat)
                == RunOutcome::NoMatch);
            assert(first == RunOutcome::NoMatch);
            assert(spec_int_exec(prog, cols, (e + 3) as int, sp, f1) == RunOutcome::Matched(
                sp as usize,
            ));
            assert(spec_star_end(feats, cols, sp) == sp);
        }
    } else {
        assert(first == RunOutcome::NoMatch);
        assert(spec_int_exec(prog, cols, (e + 3) as int, sp, f1) == RunOutcome::Matched(
            sp as usize,
        ));
        assert(spec_star_end(feats, cols, sp) == sp);
    }
}

/// Law: union preference.  In the compiled program of `A|B`, where `A` is a
/// pattern that the row at `sp` satisfies (with the following row still
/// inside the sentence), the reported match is `A`'s — it ends right after
/// `sp` — whatever `B` is and whatever longer or shorter matches `B` would
/// report.
pub proof fn lemma_union_prefers_left(
    feats: Seq<Option<FeatId>>,
    right: NodeView,
    cols: Seq<Seq<FeatId>>,
    sp: int,
    fuel: nat,
)
    requires
        spec_even_cols(cols),
        feats.len() + 5 <= usize::MAX,
        spec_expects(feats, 0).len() + spec_compile(
            right,
            spec_expects(feats, 0).len() as int + 3,
        ).len() + 5 <= usize::MAX,
        feats.len() <= cols.len(),
        0 <= sp,
        sp + 1 < cols[0].len(),
        spec_row_matches(feats, cols, sp),
        fuel >= feats.len() + 5,
    ensures
        spec_int_exec(
            spec_compile_program(
                NodeView::Union(Box::new(NodeView::Pattern(feats)), Box::new(right)),
            ),
            cols,
            0,
            sp,
            fuel,
        ) == RunOutcome::Matched((sp + 1) as usize),
{
    let node = NodeView::Union(Box::new(NodeView::Pattern(feats)), Box::new(right));
    let prog = spec_compile_program(node);
    let ex = spec_expects(feats, 0);
    let e = ex.len() as int;
    lemma_expects_len(feats, 0);
    let a = spec_compile(NodeView::Pattern(feats), 1);
    assert(a == spec_pattern_insts(feats));
    assert(a.len() == e + 1);
    let b = spec_compile(right, e + 3);
    let blen = b.len() as int;
    assert(prog =~= seq![InstCode::Split(1, (e + 3) as usize)] + ex + seq![
        InstCode::Next,
        InstCode::Jump((e + 3 + blen) as usize),
    ] + b + seq![InstCode::Match]);
    assert(prog[0] == InstCode::Split(1, (e + 3) as usize));
    assert(prog[e + 1] == InstCode::Next);
    assert(prog[e + 2] == InstCode::Jump((e + 3 + blen) as usize));
    assert(prog[e + 3 + blen] == InstCode::Match);
    assert forall|k: int| 0 <= k < ex.len() implies #[trigger] prog[1 + k] == ex[k] by {
        assert(prog[1 + k] == (seq![InstCode::Split(1, (e + 3) as usize)] + ex + seq![
            InstCode::Next,
            InstCode::Jump((e + 3 + blen) as usize),
        ] + b + seq![InstCode::Match])[1 + k]);
    }
    let f1 = (fuel - 1) as nat;
    lemma_expects_run(prog, cols, feats, 0, 1, sp, f1);
    let f2 = (f1 - e) as nat;
    // After the pattern's checks: consume the row, jump over B, match.
    assert(spec_int_exec(prog, cols, 1 + e, sp, f2) == spec_int_exec(
        prog,
        cols,
        e + 2,
        sp + 1,
        (f2 - 1) as nat,
    ));
    assert(spec_int_exec(prog, cols, e + 2, sp + 1, (f2 - 1) as nat) == spec_int_exec(
        prog,
        cols,
        e + 3 + blen,
        sp + 1,
        (f2 - 2) as nat,
    ));
    assert(spec_int_exec(prog, cols, e + 3 + blen, sp + 1, (f2 - 2) as nat)
        == RunOutcome::Matched((sp + 1) as usize));
    assert(spec_int_exec(prog, cols, 1, sp, f1) == RunOutcome::Matched((sp + 1) as usize));
}

} // verus!
