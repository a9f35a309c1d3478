use vstd::prelude::*;
use vstd::std_specs::cmp::PartialEqSpec;

verus! {

pub const INC_CHAR: u8 = 43;
pub const DEC_CHAR: u8 = 45;
pub const NEXT_CHAR: u8 = 62;
pub const PREV_CHAR: u8 = 60;
pub const PUTC_CHAR: u8 = 46;
pub const GETC_CHAR: u8 = 44;
pub const LOOP_START_CHAR: u8 = 91;
pub const LOOP_END_CHAR: u8 = 93;

/// A position in a source file; `line` and `column` count from 1.
#[derive(Clone, Debug, PartialEq, Eq)]
pub struct Location {
    pub file: String,
    pub line: u64,
    pub column: u64,
}

/// A value paired with the location of its first source byte. Two nodes are
/// equal when their values are, wherever they stand.
#[derive(Clone, Debug, Eq)]
pub struct Node<T> {
    pub val: T,
    pub loc: Location,
}

/// One instruction of the tree; the counted variants stand for a run of
/// identical source bytes.
#[derive(Debug, PartialEq, Eq)]
pub enum AstNode {
    Increment(u64),
    Decrement(u64),
    Next(u64),
    Previous(u64),
    PutChar(),
    GetChar(),
    Loop(Vec<Node<AstNode>>),
}

impl<T: PartialEq> PartialEq for Node<T> {
    fn eq(&self, other: &Self) -> (r: bool) {
        self.val == other.val
    }
}

impl<T: PartialEq> vstd::std_specs::cmp::PartialEqSpecImpl for Node<T> {
    open spec fn obeys_eq_spec() -> bool {
        <T as PartialEqSpec>::obeys_eq_spec()
    }

    open spec fn eq_spec(&self, other: &Node<T>) -> bool {
        self.val.eq_spec(&other.val)
    }
}

/// True of the eight bytes that form instructions.
pub open spec fn is_instruction(b: u8) -> bool {
    b == INC_CHAR || b == DEC_CHAR || b == NEXT_CHAR || b == PREV_CHAR || b == PUTC_CHAR
        || b == GETC_CHAR || b == LOOP_START_CHAR || b == LOOP_END_CHAR
}

/// `n` copies of byte `b`.
pub open spec fn repeat_byte(b: u8, n: nat) -> Seq<u8> {
    Seq::new(n, |i: int| b)
}

/// The instruction bytes that a node stands for.
pub open spec fn render_node(n: AstNode) -> Seq<u8>
    decreases n,
{
    match n {
        AstNode::Increment(k) => repeat_byte(INC_CHAR, k as nat),
        AstNode::Decrement(k) => repeat_byte(DEC_CHAR, k as nat),
        AstNode::Next(k) => repeat_byte(NEXT_CHAR, k as nat),
        AstNode::Previous(k) => repeat_byte(PREV_CHAR, k as nat),
        AstNode::PutChar() => seq![PUTC_CHAR],
        AstNode::GetChar() => seq![GETC_CHAR],
        AstNode::Loop(body) => seq![LOOP_START_CHAR] + render_forest(body@) + seq![LOOP_END_CHAR],
    }
}

/// The instruction bytes of a sequence of nodes, one after the other.
pub open spec fn render_forest(ns: Seq<Node<AstNode>>) -> Seq<u8>
    decreases ns,
{
    if ns.len() == 0 {
        Seq::empty()
    } else {
        render_forest(ns.drop_last()) + render_node(ns.last().val)
    }
}

/// Appends `n` copies of `b`.
fn push_repeat(out: &mut Vec<u8>, b: u8, n: u64)
    ensures
        final(out)@ == old(out)@ + repeat_byte(b, n as nat),
{
    let ghost o0 = out@;
    let mut i: u64 = 0;
    while i < n
        invariant
            i <= n,
            out@ == o0 + repeat_byte(b, i as nat),
        decreases n - i,
    {
        out.push(b);
        i = i + 1;
        proof {
            assert(repeat_byte(b, i as nat) =~= repeat_byte(b, (i - 1) as nat).push(b));
        }
    }
}

impl AstNode {
    /// The instruction bytes that the node stands for, loops with their bodies.
    pub fn render(&self) -> (r: Vec<u8>)
        ensures
            r@ == render_node(*self),
        decreases self,
    {
        let mut out: Vec<u8> = Vec::new();
        match self {
            AstNode::Increment(k) => push_repeat(&mut out, INC_CHAR, *k),
            AstNode::Decrement(k) => push_repeat(&mut out, DEC_CHAR, *k),
            AstNode::Next(k) => push_repeat(&mut out, NEXT_CHAR, *k),
            AstNode::Previous(k) => push_repeat(&mut out, PREV_CHAR, *k),
            AstNode::PutChar() => out.push(PUTC_CHAR),
            AstNode::GetChar() => out.push(GETC_CHAR),
            AstNode::Loop(body) => {
                out.push(LOOP_START_CHAR);
                let mut inner = render_tree(body);
                out.append(&mut inner);
                out.push(LOOP_END_CHAR);
            },
        }
        proof {
            assert(out@ =~= render_node(*self));
        }
        out
    }
}

/// The instruction bytes of a sequence of nodes.
pub fn render_tree(ns: &Vec<Node<AstNode>>) -> (r: Vec<u8>)
    ensures
        r@ == render_forest(ns@),
    decreases ns,
{
    let mut out: Vec<u8> = Vec::new();
    let mut i: usize = 0;
    proof {
        assert(ns@.take(0) =~= Seq::<Node<AstNode>>::empty());
    }
    while i < ns.len()
        invariant
            i <= ns@.len(),
            out@ == render_forest(ns@.take(i as int)),
        decreases ns@.len() - i,
    {
        proof {
            assert(decreases_to!(ns => ns@[i as int].val));
        }
        let mut part = ns[i].val.render();
        out.append(&mut part);
        proof {
            assert(ns@.take(i as int + 1).drop_last() =~= ns@.take(i as int));
        }
        i = i + 1;
    }
    proof {
        assert(ns@.take(i as int) =~= ns@);
    }
    out
}

} // verus!
