use vstd::prelude::*;
use vstd::string::StringSliceAdditionalSpecFns;
use crate::gen::{Arch, Format, Plan, plan_is, texts};
use crate::hlist::HeadedList;
use vstd::string::StringExecFns;
use crate::syntax::{AstNode, Location, Node};

verus! {

/// The bytes of a text.
pub open spec fn tx(s: &str) -> Seq<u8> {
    s.spec_bytes()
}

/// Appends the bytes of `s`.
fn put(out: &mut Vec<u8>, s: &str)
    ensures
        final(out)@ == old(out)@ + tx(s),
{
    let b = s.as_bytes();
    let ghost o0 = out@;
    let mut i: usize = 0;
    while i < b.len()
        invariant
            b@ == tx(s),
            i <= b@.len(),
            out@ == o0 + b@.take(i as int),
        decreases b@.len() - i,
    {
        out.push(b[i]);
        i = i + 1;
        proof {
            assert(b@.take(i as int) =~= b@.take(i as int - 1).push(b@[i as int - 1]));
        }
    }
    proof {
        assert(b@.take(i as int) =~= b@);
    }
}

/// The decimal digits of `n`, most significant first.
pub open spec fn decimal(n: nat) -> Seq<u8>
    decreases n,
{
    if n < 10 {
        seq![(48 + n) as u8]
    } else {
        decimal(n / 10).push((48 + n % 10) as u8)
    }
}

/// Appends the decimal digits of `n`.
fn push_decimal(out: &mut Vec<u8>, n: u128)
    ensures
        final(out)@ == old(out)@ + decimal(n as nat),
    decreases n,
{
    if n >= 10 {
        push_decimal(out, n / 10);
    }
    out.push((48 + n % 10) as u8);
    proof {
        if n >= 10 {
            assert(out@ =~= old(out)@ + decimal(n as nat));
        } else {
            assert(out@ =~= old(out)@ + decimal(n as nat));
        }
    }
}

/// The two x86 variants that code can be generated for.
#[derive(Clone, Copy, Debug, PartialEq, Eq)]
pub enum X86Mode {
    Amd64,
    X86,
}

/// What a generated label marks.
#[derive(Clone, Copy, Debug, PartialEq, Eq)]
pub enum Purpose {
    LoopStart,
    LoopEnd,
    GuardStart,
    GuardEnd,
    ReadEnd,
}

/// The part of a label after its location: `_loop_start`, `_loop_end`,
/// `_check_esp_start`, `_check_esp_end` or `_getc_end`.
pub open spec fn suffix(p: Purpose) -> Seq<u8> {
    match p {
        Purpose::LoopStart => seq![95u8, 108, 111, 111, 112, 95, 115, 116, 97, 114, 116],
        Purpose::LoopEnd => seq![95u8, 108, 111, 111, 112, 95, 101, 110, 100],
        Purpose::GuardStart => seq![95u8, 99, 104, 101, 99, 107, 95, 101, 115, 112, 95, 115, 116, 97, 114, 116],
        Purpose::GuardEnd => seq![95u8, 99, 104, 101, 99, 107, 95, 101, 115, 112, 95, 101, 110, 100],
        Purpose::ReadEnd => seq![95u8, 103, 101, 116, 99, 95, 101, 110, 100],
    }
}

fn suffix_bytes(p: Purpose) -> (r: Vec<u8>)
    ensures
        r@ == suffix(p),
{
    let r = match p {
        Purpose::LoopStart => vec![95u8, 108, 111, 111, 112, 95, 115, 116, 97, 114, 116],
        Purpose::LoopEnd => vec![95u8, 108, 111, 111, 112, 95, 101, 110, 100],
        Purpose::GuardStart => vec![95u8, 99, 104, 101, 99, 107, 95, 101, 115, 112, 95, 115, 116, 97, 114, 116],
        Purpose::GuardEnd => vec![95u8, 99, 104, 101, 99, 107, 95, 101, 115, 112, 95, 101, 110, 100],
        Purpose::ReadEnd => vec![95u8, 103, 101, 116, 99, 95, 101, 110, 100],
    };
    proof {
        assert(r@ =~= suffix(p));
    }
    r
}

/// `_at_<line>_<column>`.
pub open spec fn label_of(line: nat, column: nat) -> Seq<u8> {
    seq![95u8, 97, 116, 95] + decimal(line) + seq![95u8] + decimal(column)
}

/// The label of the site at `loc` for `p`.
pub open spec fn site_label(loc: Location, p: Purpose) -> Seq<u8> {
    label_of(loc.line as nat, loc.column as nat) + suffix(p)
}

impl X86Mode {
    /// The label that the sites at `loc` share, before their suffix.
    pub fn label_for(loc: &Location) -> (r: Vec<u8>)
        ensures
            r@ == label_of(loc.line as nat, loc.column as nat),
    {
        let mut label: Vec<u8> = Vec::new();
        label.push(95);
        label.push(97);
        label.push(116);
        label.push(95);
        push_decimal(&mut label, loc.line as u128);
        label.push(95);
        push_decimal(&mut label, loc.column as u128);
        proof {
            assert(label@ =~= label_of(loc.line as nat, loc.column as nat));
        }
        label
    }
}

fn site_label_bytes(loc: &Location, p: Purpose) -> (r: Vec<u8>)
    ensures
        r@ == site_label(*loc, p),
{
    let mut label = X86Mode::label_for(loc);
    let mut suf = suffix_bytes(p);
    label.append(&mut suf);
    label
}

impl X86Mode {
    /// The mode's part of the prologue: a zero word pushed, and the tape pointer set to the stack top.
    pub open spec fn prologue_mode(self) -> Seq<u8> {
        match self {
            X86Mode::Amd64 => tx("  pushq $0\n  mov %rsp, %rbx\n"),
            X86Mode::X86 => tx("  pushl $0\n  mov %esp, %esi\n"),
        }
    }

    /// The tape cell as the destination of an instruction.
    pub open spec fn cell_operand(self) -> Seq<u8> {
        match self {
            X86Mode::Amd64 => tx(", (%rbx)\n"),
            X86Mode::X86 => tx(", (%esi)\n"),
        }
    }

    /// The tape pointer as the destination of an instruction.
    pub open spec fn pointer_operand(self) -> Seq<u8> {
        match self {
            X86Mode::Amd64 => tx(", %rbx\n"),
            X86Mode::X86 => tx(", %esi\n"),
        }
    }

    /// One zero word pushed onto the machine stack.
    pub open spec fn push_word(self) -> Seq<u8> {
        match self {
            X86Mode::Amd64 => tx("  pushq $0\n  "),
            X86Mode::X86 => tx("  pushl $0\n  "),
        }
    }

    /// Compares the tape pointer with the machine stack top.
    pub open spec fn guard_compare(self) -> Seq<u8> {
        match self {
            X86Mode::Amd64 => tx("  cmp %rbx, %rsp\n"),
            X86Mode::X86 => tx("  cmp %esi, %esp\n"),
        }
    }

    /// Compares the tape cell with zero.
    pub open spec fn loop_compare(self) -> Seq<u8> {
        match self {
            X86Mode::Amd64 => tx("  cmpw $0, (%rbx)\n"),
            X86Mode::X86 => tx("  cmpw $0, (%esi)\n"),
        }
    }

    /// Writes the tape cell's low byte to standard output.
    pub open spec fn write_call(self) -> Seq<u8> {
        match self {
            X86Mode::Amd64 => tx("  mov $1, %rax\n  mov $1, %rdi\n  mov %rbx, %rsi\n  mov $1, %rdx\n  syscall\n"),
            X86Mode::X86 => tx("  mov $4, %eax\n  mov $1, %ebx\n  mov %esi, %ecx\n  mov $1, %edx\n  int $0x80\n"),
        }
    }

    /// Clears the tape cell, reads one byte into it, and skips the end-of-input mark when a byte came.
    pub open spec fn read_call(self) -> Seq<u8> {
        match self {
            X86Mode::Amd64 => tx("  movw $0, (%rbx)\n  mov $0, %rax\n  mov $0, %rdi\n  mov %rbx, %rsi\n  mov $1, %rdx\n  syscall\n  cmp $1, %rax\n  je "),
            X86Mode::X86 => tx("  movw $0, (%esi)\n  mov $3, %eax\n  mov $0, %ebx\n  mov %esi, %ecx\n  mov $1, %edx\n  int $0x80\n  cmp $1, %eax\n  je "),
        }
    }

    /// Marks end of input in the tape cell with all ones.
    pub open spec fn read_eof(self) -> Seq<u8> {
        match self {
            X86Mode::Amd64 => tx("\n  movw $-1, (%rbx)\n  "),
            X86Mode::X86 => tx("\n  movw $-1, (%esi)\n  "),
        }
    }

    /// Ends the process with status zero.
    pub open spec fn epilogue(self) -> Seq<u8> {
        match self {
            X86Mode::Amd64 => tx("  mov $60, %rax\n  mov $0, %rdi\n  syscall\n"),
            X86Mode::X86 => tx("  mov $1, %eax\n  mov $0, %ebx\n  int $0x80\n"),
        }
    }

    fn prologue_mode_text(&self) -> (r: &'static str)
        ensures
            tx(r) == self.prologue_mode(),
    {
        match *self {
            X86Mode::Amd64 => "  pushq $0\n  mov %rsp, %rbx\n",
            X86Mode::X86 => "  pushl $0\n  mov %esp, %esi\n",
        }
    }

    fn cell_operand_text(&self) -> (r: &'static str)
        ensures
            tx(r) == self.cell_operand(),
    {
        match *self {
            X86Mode::Amd64 => ", (%rbx)\n",
            X86Mode::X86 => ", (%esi)\n",
        }
    }

    fn pointer_operand_text(&self) -> (r: &'static str)
        ensures
            tx(r) == self.pointer_operand(),
    {
        match *self {
            X86Mode::Amd64 => ", %rbx\n",
            X86Mode::X86 => ", %esi\n",
        }
    }

    fn push_word_text(&self) -> (r: &'static str)
        ensures
            tx(r) == self.push_word(),
    {
        match *self {
            X86Mode::Amd64 => "  pushq $0\n  ",
            X86Mode::X86 => "  pushl $0\n  ",
        }
    }

    fn guard_compare_text(&self) -> (r: &'static str)
        ensures
            tx(r) == self.guard_compare(),
    {
        match *self {
            X86Mode::Amd64 => "  cmp %rbx, %rsp\n",
            X86Mode::X86 => "  cmp %esi, %esp\n",
        }
    }

    fn loop_compare_text(&self) -> (r: &'static str)
        ensures
            tx(r) == self.loop_compare(),
    {
        match *self {
            X86Mode::Amd64 => "  cmpw $0, (%rbx)\n",
            X86Mode::X86 => "  cmpw $0, (%esi)\n",
        }
    }

    fn write_call_text(&self) -> (r: &'static str)
        ensures
            tx(r) == self.write_call(),
    {
        match *self {
            X86Mode::Amd64 => "  mov $1, %rax\n  mov $1, %rdi\n  mov %rbx, %rsi\n  mov $1, %rdx\n  syscall\n",
            X86Mode::X86 => "  mov $4, %eax\n  mov $1, %ebx\n  mov %esi, %ecx\n  mov $1, %edx\n  int $0x80\n",
        }
    }

    fn read_call_text(&self) -> (r: &'static str)
        ensures
            tx(r) == self.read_call(),
    {
        match *self {
            X86Mode::Amd64 => "  movw $0, (%rbx)\n  mov $0, %rax\n  mov $0, %rdi\n  mov %rbx, %rsi\n  mov $1, %rdx\n  syscall\n  cmp $1, %rax\n  je ",
            X86Mode::X86 => "  movw $0, (%esi)\n  mov $3, %eax\n  mov $0, %ebx\n  mov %esi, %ecx\n  mov $1, %edx\n  int $0x80\n  cmp $1, %eax\n  je ",
        }
    }

    fn read_eof_text(&self) -> (r: &'static str)
        ensures
            tx(r) == self.read_eof(),
    {
        match *self {
            X86Mode::Amd64 => "\n  movw $-1, (%rbx)\n  ",
            X86Mode::X86 => "\n  movw $-1, (%esi)\n  ",
        }
    }

    fn epilogue_text(&self) -> (r: &'static str)
        ensures
            tx(r) == self.epilogue(),
    {
        match *self {
            X86Mode::Amd64 => "  mov $60, %rax\n  mov $0, %rdi\n  syscall\n",
            X86Mode::X86 => "  mov $1, %eax\n  mov $0, %ebx\n  int $0x80\n",
        }
    }
}

/// The code for one node and everything below it.
#[verifier::opaque]
pub open spec fn node_asm(m: X86Mode, n: Node<AstNode>) -> Seq<u8>
    decreases n,
{
    match n.val {
        AstNode::Increment(k) => tx("  addw $") + decimal(k as nat) + m.cell_operand(),
        AstNode::Decrement(k) => tx("  subw $") + decimal(k as nat) + m.cell_operand(),
        AstNode::Next(k) => forward_asm(m, k as nat, n.loc),
        AstNode::Previous(k) => tx("  add $") + decimal(2 * k as nat) + m.pointer_operand(),
        AstNode::PutChar() => m.write_call(),
        AstNode::GetChar() => read_asm(m, n.loc),
        AstNode::Loop(body) => {
            let start = site_label(n.loc, Purpose::LoopStart);
            let end = site_label(n.loc, Purpose::LoopEnd);
            loop_head(start, end) + forest_asm(m, body@) + loop_foot(m, start, end)
        },
    }
}

/// Moves the tape pointer forward by `k` cells, then grows the machine stack
/// one word at a time until it covers the tape pointer.
pub open spec fn forward_asm(m: X86Mode, k: nat, loc: Location) -> Seq<u8> {
    let start = site_label(loc, Purpose::GuardStart);
    let end = site_label(loc, Purpose::GuardEnd);
    tx("  sub $") + decimal(2 * k) + m.pointer_operand() + tx("  jmp ") + end + tx("\n  ") + start + tx(":\n")
        + m.push_word() + end + tx(":\n") + m.guard_compare() + tx("  jae ") + start + tx("\n")
}

/// Reads one byte into the tape cell, or marks end of input there.
pub open spec fn read_asm(m: X86Mode, loc: Location) -> Seq<u8> {
    let end = site_label(loc, Purpose::ReadEnd);
    m.read_call() + end + m.read_eof() + end + tx(":\n")
}

/// Jumps to the loop's check, and marks where its body begins.
pub open spec fn loop_head(start: Seq<u8>, end: Seq<u8>) -> Seq<u8> {
    tx("  jmp ") + end + tx("\n  ") + start + tx(":\n")
}

/// The loop's check: back to its body while the tape cell is not zero.
pub open spec fn loop_foot(m: X86Mode, start: Seq<u8>, end: Seq<u8>) -> Seq<u8> {
    tx("  ") + end + tx(":\n") + m.loop_compare() + tx("  jne ") + start + tx("\n")
}

/// The code for a sequence of nodes, one after the other.
pub open spec fn forest_asm(m: X86Mode, ns: Seq<Node<AstNode>>) -> Seq<u8>
    decreases ns,
{
    if ns.len() == 0 {
        Seq::empty()
    } else {
        node_asm(m, ns[0]) + forest_asm(m, ns.drop_first())
    }
}

/// The whole program for a tree.
pub open spec fn asm_of(m: X86Mode, ast: Seq<Node<AstNode>>) -> Seq<u8> {
    tx(".text\n.globl _start\n_start:\n") + m.prologue_mode() + forest_asm(m, ast) + m.epilogue()
}

/// Appends the bytes of `b`.
fn put_bytes(out: &mut Vec<u8>, b: &Vec<u8>)
    ensures
        final(out)@ == old(out)@ + b@,
{
    let ghost o0 = out@;
    let mut i: usize = 0;
    while i < b.len()
        invariant
            i <= b@.len(),
            out@ == o0 + b@.take(i as int),
        decreases b@.len() - i,
    {
        out.push(b[i]);
        i = i + 1;
        proof {
            assert(b@.take(i as int) =~= b@.take(i as int - 1).push(b@[i as int - 1]));
        }
    }
    proof {
        assert(b@.take(i as int) =~= b@);
    }
}

/// The same nodes, last first.
fn reversed(v: Vec<Node<AstNode>>) -> (r: Vec<Node<AstNode>>)
    ensures
        r@ == v@.reverse(),
{
    let ghost orig = v@;
    let mut v = v;
    let mut r: Vec<Node<AstNode>> = Vec::new();
    while v.len() > 0
        invariant
            v@.len() <= orig.len(),
            v@ == orig.take(v@.len() as int),
            r@ == orig.reverse().take(orig.len() - v@.len()),
        decreases v@.len(),
    {
        let ghost k = v@.len();
        let n = v.pop().unwrap();
        r.push(n);
        proof {
            assert(v@ =~= orig.take(v@.len() as int));
            assert(r@ =~= orig.reverse().take(orig.len() - v@.len()));
        }
    }
    proof {
        assert(r@ =~= orig.reverse());
    }
    r
}

/// A loop whose code is being generated: the nodes left (the next one last)
/// and its two labels.
struct Context {
    ops: Vec<Node<AstNode>>,
    start: Vec<u8>,
    end: Vec<u8>,
}

spec fn rem(c: Context) -> Seq<Node<AstNode>> {
    c.ops@.reverse()
}

/// The code still owed for a stack of contexts, innermost first; the last
/// one is the whole program, which has no check of its own.
#[verifier::opaque]
spec fn pending(m: X86Mode, cs: Seq<Context>) -> Seq<u8>
    decreases cs.len(),
{
    if cs.len() == 0 {
        Seq::empty()
    } else if cs.len() == 1 {
        forest_asm(m, rem(cs[0]))
    } else {
        forest_asm(m, rem(cs[0])) + loop_foot(m, cs[0].start@, cs[0].end@) + pending(m, cs.drop_first())
    }
}

spec fn size_node(n: Node<AstNode>) -> nat
    decreases n,
{
    match n.val {
        AstNode::Loop(body) => 2 + size_forest(body@),
        _ => 1,
    }
}

spec fn size_forest(ns: Seq<Node<AstNode>>) -> nat
    decreases ns,
{
    if ns.len() == 0 {
        0
    } else {
        size_node(ns[0]) + size_forest(ns.drop_first())
    }
}

#[verifier::opaque]
spec fn work(cs: Seq<Context>) -> nat
    decreases cs.len(),
{
    if cs.len() == 0 {
        0
    } else {
        size_forest(rem(cs[0])) + 1 + work(cs.drop_first())
    }
}

proof fn lemma_pop_node(m: X86Mode, cs: Seq<Context>, ds: Seq<Context>, n: Node<AstNode>)
    requires
        cs.len() >= 1,
        ds.len() == cs.len(),
        ds.drop_first() == cs.drop_first(),
        rem(cs[0]).len() > 0,
        n == rem(cs[0])[0],
        rem(ds[0]) == rem(cs[0]).drop_first(),
        ds[0].start@ == cs[0].start@,
        ds[0].end@ == cs[0].end@,
    ensures
        pending(m, cs) == node_asm(m, n) + pending(m, ds),
        work(cs) == size_node(n) + work(ds),
{
    reveal(pending);
    reveal(work);
    lemma_forest_unfold(m, rem(cs[0]));
    assert(size_forest(rem(cs[0])) == size_node(n) + size_forest(rem(ds[0])));
    assert(size_forest(rem(cs[0])) == size_node(n) + size_forest(rem(ds[0])));
    if cs.len() == 1 {
        assert(pending(m, cs) == forest_asm(m, rem(cs[0])));
        assert(pending(m, ds) == forest_asm(m, rem(ds[0])));
    } else {
        assert(pending(m, cs) =~= node_asm(m, n) + pending(m, ds));
    }
}

proof fn lemma_forest_unfold(m: X86Mode, s: Seq<Node<AstNode>>)
    requires
        s.len() > 0,
    ensures
        forest_asm(m, s) == node_asm(m, s[0]) + forest_asm(m, s.drop_first()),
{
    reveal(node_asm);
}

/// A loop's code, in three parts.
proof fn lemma_loop_asm(m: X86Mode, n: Node<AstNode>, body: Seq<Node<AstNode>>)
    requires
        n.val matches AstNode::Loop(b) && b@ == body,
    ensures
        node_asm(m, n) == loop_head(site_label(n.loc, Purpose::LoopStart), site_label(n.loc, Purpose::LoopEnd))
            + forest_asm(m, body) + loop_foot(m, site_label(n.loc, Purpose::LoopStart), site_label(n.loc, Purpose::LoopEnd)),
        size_node(n) == 2 + size_forest(body),
{
    reveal(node_asm);
}

/// Entering a context puts its code and its check before what was owed.
proof fn lemma_push_context(m: X86Mode, cs: Seq<Context>, ds: Seq<Context>)
    requires
        cs.len() >= 1,
        ds.len() == cs.len() + 1,
        ds.drop_first() == cs,
    ensures
        pending(m, ds) == forest_asm(m, rem(ds[0])) + loop_foot(m, ds[0].start@, ds[0].end@) + pending(m, cs),
        work(ds) == size_forest(rem(ds[0])) + 1 + work(cs),
{
    reveal(pending);
    reveal(work);
}

/// Leaving a finished context leaves its check first.
proof fn lemma_pop_context(m: X86Mode, cs: Seq<Context>)
    requires
        cs.len() >= 2,
        rem(cs[0]).len() == 0,
    ensures
        pending(m, cs) == loop_foot(m, cs[0].start@, cs[0].end@) + pending(m, cs.drop_first()),
        work(cs) == 1 + work(cs.drop_first()),
{
    reveal(pending);
    reveal(work);
    assert(forest_asm(m, rem(cs[0])) =~= Seq::<u8>::empty());
    assert(pending(m, cs) =~= loop_foot(m, cs[0].start@, cs[0].end@) + pending(m, cs.drop_first()));
}

/// A sole context owes the code of its nodes.
proof fn lemma_single_context(m: X86Mode, cs: Seq<Context>)
    requires
        cs.len() == 1,
    ensures
        pending(m, cs) == forest_asm(m, rem(cs[0])),
{
    reveal(pending);
}

/// Nothing is owed for a sole context that is finished.
proof fn lemma_last_context(m: X86Mode, cs: Seq<Context>)
    requires
        cs.len() == 1,
        rem(cs[0]).len() == 0,
    ensures
        pending(m, cs) == Seq::<u8>::empty(),
{
    reveal(pending);
    reveal(work);
}

/// A context whose nodes and labels stay the same owes the same.
proof fn lemma_same_context(m: X86Mode, cs: Seq<Context>, ds: Seq<Context>)
    requires
        cs.len() >= 1,
        ds.len() == cs.len(),
        ds.drop_first() == cs.drop_first(),
        rem(ds[0]) == rem(cs[0]),
        ds[0].start@ == cs[0].start@,
        ds[0].end@ == cs[0].end@,
    ensures
        pending(m, ds) == pending(m, cs),
        work(ds) == work(cs),
{
    reveal(pending);
    reveal(work);
}

proof fn lemma_reverse_pop(s: Seq<Node<AstNode>>)
    requires
        s.len() > 0,
    ensures
        s.reverse()[0] == s.last(),
        s.drop_last().reverse() == s.reverse().drop_first(),
        s.reverse().len() == s.len(),
{
    assert(s.drop_last().reverse() =~= s.reverse().drop_first());
}

/// The digits that `decimal` writes, read back as a number.
pub open spec fn digits_value(s: Seq<u8>) -> nat
    decreases s.len(),
{
    if s.len() == 0 {
        0
    } else {
        digits_value(s.drop_last()) * 10 + (s.last() - 48) as nat
    }
}

/// `decimal` writes at least one digit, each a byte from `0` to `9`, and can
/// be read back.
pub proof fn lemma_decimal(n: nat)
    ensures
        decimal(n).len() >= 1,
        forall|i: int| 0 <= i < decimal(n).len() ==> 48 <= #[trigger] decimal(n)[i] <= 57,
        digits_value(decimal(n)) == n,
    decreases n,
{
    let d = decimal(n);
    if n >= 10 {
        lemma_decimal(n / 10);
        assert(d.drop_last() == decimal(n / 10));
        assert(d.last() == (48 + n % 10) as u8);
        assert((d.last() - 48) as nat == n % 10);
        assert((n / 10) * 10 + n % 10 == n) by (nonlinear_arith);
        assert(digits_value(d) == digits_value(d.drop_last()) * 10 + (d.last() - 48) as nat);
        assert forall|i: int| 0 <= i < d.len() implies 48 <= #[trigger] d[i] <= 57 by {
            if i < d.len() - 1 {
                assert(d[i] == decimal(n / 10)[i]);
            }
        }
    } else {
        assert(d.drop_last() =~= Seq::<u8>::empty());
        assert((d.last() - 48) as nat == n);
        assert(digits_value(d) == digits_value(d.drop_last()) * 10 + (d.last() - 48) as nat);
    }
}

/// Around the first `_` of each side, two equal texts split the same way when
/// neither first part holds one.
proof fn lemma_split_at_underscore(x: Seq<u8>, y: Seq<u8>, x2: Seq<u8>, y2: Seq<u8>)
    requires
        x + seq![95u8] + y == x2 + seq![95u8] + y2,
        forall|i: int| 0 <= i < x.len() ==> x[i] != 95,
        forall|i: int| 0 <= i < x2.len() ==> x2[i] != 95,
    ensures
        x == x2,
        y == y2,
{
    let a = x + seq![95u8] + y;
    let b = x2 + seq![95u8] + y2;
    if x.len() < x2.len() {
        assert(a[x.len() as int] == 95);
        assert(b[x.len() as int] == x2[x.len() as int]);
    } else if x2.len() < x.len() {
        assert(b[x2.len() as int] == 95);
        assert(a[x2.len() as int] == x[x2.len() as int]);
    }
    assert(x =~= a.take(x.len() as int));
    assert(x2 =~= b.take(x2.len() as int));
    assert(y =~= a.skip(x.len() as int + 1));
    assert(y2 =~= b.skip(x2.len() as int + 1));
}

/// A label names one site: equal labels have equal lines, columns and
/// purposes.
pub proof fn lemma_site_label_injective(la: nat, ca: nat, pa: Purpose, lb: nat, cb: nat, pb: Purpose)
    requires
        label_of(la, ca) + suffix(pa) == label_of(lb, cb) + suffix(pb),
    ensures
        la == lb,
        ca == cb,
        pa == pb,
{
    let ta = lemma_label_shape(la, ca, pa);
    let tb = lemma_label_shape(lb, cb, pb);
    let head = seq![95u8, 97, 116, 95];
    assert(ta =~= (head + ta).skip(4));
    assert(tb =~= (head + tb).skip(4));
    lemma_decimal(la);
    lemma_decimal(lb);
    lemma_split_at_underscore(decimal(la), decimal(ca) + seq![95u8] + suffix(pa).drop_first(), decimal(lb), decimal(cb) + seq![95u8] + suffix(pb).drop_first());
    lemma_decimal(ca);
    lemma_decimal(cb);
    lemma_split_at_underscore(decimal(ca), suffix(pa).drop_first(), decimal(cb), suffix(pb).drop_first());
    lemma_suffix(pa, pb);
    assert(digits_value(decimal(la)) == digits_value(decimal(lb)));
    assert(digits_value(decimal(ca)) == digits_value(decimal(cb)));
}

/// A label is its head, then its line, `_`, its column, `_`, and the rest of
/// its suffix.
proof fn lemma_label_shape(l: nat, c: nat, p: Purpose) -> (t: Seq<u8>)
    ensures
        t == decimal(l) + seq![95u8] + (decimal(c) + seq![95u8] + suffix(p).drop_first()),
        label_of(l, c) + suffix(p) == seq![95u8, 97, 116, 95] + t,
{
    lemma_suffix(p, p);
    let t = decimal(l) + seq![95u8] + (decimal(c) + seq![95u8] + suffix(p).drop_first());
    assert(label_of(l, c) + suffix(p) =~= seq![95u8, 97, 116, 95] + t);
    t
}

/// Each suffix starts with `_`, and no two purposes share one.
proof fn lemma_suffix(pa: Purpose, pb: Purpose)
    ensures
        suffix(pa) == seq![95u8] + suffix(pa).drop_first(),
        suffix(pa).drop_first() == suffix(pb).drop_first() ==> pa == pb,
{
    assert(suffix(pa) =~= seq![95u8] + suffix(pa).drop_first());
    assert(suffix(pb) =~= seq![95u8] + suffix(pb).drop_first());
    if suffix(pa).drop_first() == suffix(pb).drop_first() && pa != pb {
        assert(suffix(pa) == suffix(pb));
        assert(suffix(pa).len() == suffix(pb).len());
        if suffix(pa).len() == 9 {
            assert(suffix(pa)[1] == suffix(pb)[1]);
        }
    }
}

/// A place that needs a label: a line, a column, and what the label marks.
pub type LabelSite = (u64, u64, Purpose);

pub open spec fn site_text(s: LabelSite) -> Seq<u8> {
    label_of(s.0 as nat, s.1 as nat) + suffix(s.2)
}

/// The sites of a node and of the nodes below it that get a label: a loop's
/// start and end, a forward move's two guard labels, and a read's end.
pub open spec fn node_label_sites(n: Node<AstNode>) -> Seq<LabelSite>
    decreases n,
{
    let l = n.loc.line;
    let c = n.loc.column;
    match n.val {
        AstNode::Loop(body) => seq![(l, c, Purpose::LoopStart), (l, c, Purpose::LoopEnd)] + forest_label_sites(body@),
        AstNode::Next(_) => seq![(l, c, Purpose::GuardStart), (l, c, Purpose::GuardEnd)],
        AstNode::GetChar() => seq![(l, c, Purpose::ReadEnd)],
        _ => Seq::empty(),
    }
}

pub open spec fn forest_label_sites(ns: Seq<Node<AstNode>>) -> Seq<LabelSite>
    decreases ns,
{
    if ns.len() == 0 {
        Seq::empty()
    } else {
        node_label_sites(ns[0]) + forest_label_sites(ns.drop_first())
    }
}

/// A tree whose label sites are all different gets as many different labels.
pub proof fn lemma_labels_unique(ast: Seq<Node<AstNode>>)
    requires
        forest_label_sites(ast).no_duplicates(),
    ensures
        forest_label_sites(ast).map_values(|s: LabelSite| site_text(s)).no_duplicates(),
        forest_label_sites(ast).map_values(|s: LabelSite| site_text(s)).len() == forest_label_sites(ast).len(),
{
    let sites = forest_label_sites(ast);
    let labels = sites.map_values(|s: LabelSite| site_text(s));
    assert forall|i: int, j: int| 0 <= i < labels.len() && 0 <= j < labels.len() && i != j implies labels[i] != labels[j] by {
        if labels[i] == labels[j] {
            lemma_site_label_injective(
                sites[i].0 as nat, sites[i].1 as nat, sites[i].2,
                sites[j].0 as nat, sites[j].1 as nat, sites[j].2,
            );
            assert(sites[i] == sites[j]);
        }
    }
}

impl X86Mode {
    /// Appends the code of a node that is not a loop.
    fn emit_plain(&self, out: &mut Vec<u8>, n: Node<AstNode>)
        requires
            !(n.val is Loop),
        ensures
            final(out)@ == old(out)@ + node_asm(*self, n),
    {
        let ghost o1 = out@;
        let Node { val, loc } = n;
        match val {
            AstNode::Increment(k) => {
                put(out, "  addw $");
                push_decimal(out, k as u128);
                put(out, self.cell_operand_text());
                proof {
                    reveal(node_asm);
                    assert(out@ =~= o1 + node_asm(*self, n));
                }
            },
            AstNode::Decrement(k) => {
                put(out, "  subw $");
                push_decimal(out, k as u128);
                put(out, self.cell_operand_text());
                proof {
                    reveal(node_asm);
                    assert(out@ =~= o1 + node_asm(*self, n));
                }
            },
            AstNode::Next(k) => {
                self.emit_forward(out, k, &loc);
                proof {
                    reveal(node_asm);
                    assert(out@ =~= o1 + node_asm(*self, n));
                }
            },
            other => {
                proof {
                    assert(Node { val: other, loc } == n);
                }
                self.emit_rest(out, Node { val: other, loc });
            },
        }
    }

    fn emit_forward(&self, out: &mut Vec<u8>, k: u64, loc: &Location)
        ensures
            final(out)@ == old(out)@ + forward_asm(*self, k as nat, *loc),
    {
        let ghost o1 = out@;
        let start = site_label_bytes(loc, Purpose::GuardStart);
        let end = site_label_bytes(loc, Purpose::GuardEnd);
        put(out, "  sub $");
                push_decimal(out, 2 * (k as u128));
                put(out, self.pointer_operand_text());
                put(out, "  jmp ");
                put_bytes(out, &end);
                put(out, "\n  ");
                put_bytes(out, &start);
                put(out, ":\n");
                put(out, self.push_word_text());
                put_bytes(out, &end);
                put(out, ":\n");
                put(out, self.guard_compare_text());
                put(out, "  jae ");
                put_bytes(out, &start);
                put(out, "\n");
                proof {
                    assert(out@ =~= o1 + forward_asm(*self, k as nat, *loc));
                }
    }

    fn emit_rest(&self, out: &mut Vec<u8>, n: Node<AstNode>)
        requires
            n.val is Previous || n.val is PutChar || n.val is GetChar,
        ensures
            final(out)@ == old(out)@ + node_asm(*self, n),
    {
        let ghost o1 = out@;
        let Node { val, loc } = n;
        match val {
            AstNode::Previous(k) => {
                put(out, "  add $");
                push_decimal(out, 2 * (k as u128));
                put(out, self.pointer_operand_text());
                proof {
                    reveal(node_asm);
                    assert(out@ =~= o1 + node_asm(*self, n));
                }
            },
            AstNode::PutChar() => {
                put(out, self.write_call_text());
                proof {
                    reveal(node_asm);
                    assert(out@ =~= o1 + node_asm(*self, n));
                }
            },
            AstNode::GetChar() => {
                let end = site_label_bytes(&loc, Purpose::ReadEnd);
                put(out, self.read_call_text());
                put_bytes(out, &end);
                put(out, self.read_eof_text());
                put_bytes(out, &end);
                put(out, ":\n");
                proof {
                    reveal(node_asm);
                    assert(out@ =~= o1 + node_asm(*self, n));
                }
            },
            _ => {},
        }
    }

    /// Appends a loop's check.
    fn emit_foot(&self, out: &mut Vec<u8>, start: &Vec<u8>, end: &Vec<u8>)
        ensures
            final(out)@ == old(out)@ + loop_foot(*self, start@, end@),
    {
        let ghost o1 = out@;
        put(out, "  ");
        put_bytes(out, end);
        put(out, ":\n");
        put(out, self.loop_compare_text());
        put(out, "  jne ");
        put_bytes(out, start);
        put(out, "\n");
        proof {
            assert(out@ =~= o1 + loop_foot(*self, start@, end@));
        }
    }

    /// Appends the code that enters a loop.
    fn emit_head(&self, out: &mut Vec<u8>, start: &Vec<u8>, end: &Vec<u8>)
        ensures
            final(out)@ == old(out)@ + loop_head(start@, end@),
    {
        let ghost o1 = out@;
        put(out, "  jmp ");
        put_bytes(out, end);
        put(out, "\n  ");
        put_bytes(out, start);
        put(out, ":\n");
        proof {
            assert(out@ =~= o1 + loop_head(start@, end@));
        }
    }

    /// The assembly text of the program that `ast` stands for.
    pub fn gen_asm(&self, ast: Vec<Node<AstNode>>) -> (r: Vec<u8>)
        ensures
            r@ == asm_of(*self, ast@),
    {
        let ghost target = tx(".text\n.globl _start\n_start:\n") + self.prologue_mode() + forest_asm(*self, ast@);
        let mut out: Vec<u8> = Vec::new();
        put(&mut out, ".text\n.globl _start\n_start:\n");
        put(&mut out, self.prologue_mode_text());
        let ops = reversed(ast);
        let mut loops = HeadedList::new(Context { ops, start: Vec::new(), end: Vec::new() }, None);
        proof {
            assert(loops@.len() == 1);
            assert(ast@.reverse().reverse() =~= ast@);
            lemma_single_context(*self, loops@);
            assert(out@ + pending(*self, loops@) =~= target);
        }
        loop
            invariant
                loops@.len() >= 1,
                out@ + pending(*self, loops@) == target,
            ensures
                out@ == target,
            decreases work(loops@),
        {
            let ghost before = loops@;
            let next = loops.val_mut().ops.pop();
            match next {
                Some(node) => {
                    let ghost mid = loops@;
                    proof {
                        lemma_reverse_pop(before[0].ops@);
                        assert(mid.drop_first() =~= before.drop_first());
                        lemma_pop_node(*self, before, mid, node);
                    }
                    let ghost o1 = out@;
                    let is_loop = match &node.val {
                        AstNode::Loop(_) => true,
                        _ => false,
                    };
                    if !is_loop {
                        self.emit_plain(&mut out, node);
                        proof {
                            assert(out@ + pending(*self, loops@) =~= o1 + (node_asm(*self, node) + pending(*self, mid)));
                        }
                    } else {
                        let ghost gn = node;
                        let Node { val, loc } = node;
                        if let AstNode::Loop(body) = val {
                            let ghost b = body@;
                            proof {
                                lemma_loop_asm(*self, gn, b);
                            }
                            let start = site_label_bytes(&loc, Purpose::LoopStart);
                            let end = site_label_bytes(&loc, Purpose::LoopEnd);
                            self.emit_head(&mut out, &start, &end);
                            let children = reversed(body);
                            proof {
                                assert(b.reverse().reverse() =~= b);
                            }
                            loops.receive(Context { ops: children, start, end });
                            proof {
                                assert(loops@.drop_first() =~= mid);
                                lemma_push_context(*self, mid, loops@);
                                assert(out@ + pending(*self, loops@) =~= o1 + (node_asm(*self, gn) + pending(*self, mid)));
                            }
                        }
                    }
                },
                None => {
                    let ghost top = loops@;
                    proof {
                        assert(top.drop_first() =~= before.drop_first());
                        assert(rem(top[0]) =~= rem(before[0]));
                        lemma_same_context(*self, before, top);
                    }
                    match loops.take() {
                        Some(done) => {
                            let ghost o2 = out@;
                            proof {
                                lemma_pop_context(*self, top);
                            }
                            self.emit_foot(&mut out, &done.start, &done.end);
                            proof {
                                assert(loops@ == top.drop_first());
                                assert(out@ + pending(*self, loops@) =~= o2 + pending(*self, top));
                            }
                        },
                        None => {
                            proof {
                                lemma_last_context(*self, top);
                                assert(out@ =~= target);
                            }
                            break;
                        },
                    }
                },
            }
        }
        put(&mut out, self.epilogue_text());
        out
    }
}

impl Arch for X86Mode {
    open spec fn asm_text(&self, ast: Seq<Node<AstNode>>) -> Seq<u8> {
        asm_of(*self, ast)
    }

    open spec fn word_flag(&self) -> Seq<char> {
        match *self {
            X86Mode::Amd64 => "--64"@,
            X86Mode::X86 => "--32"@,
        }
    }

    open spec fn emulation(&self) -> Seq<char> {
        match *self {
            X86Mode::Amd64 => "elf_x86_64"@,
            X86Mode::X86 => "elf_i386"@,
        }
    }

    fn generate(&self, ast: Vec<Node<AstNode>>, format: Format, out: String) -> (r: Plan) {
        let text = self.gen_asm(ast);
        match format {
            Format::Asm => Plan::WriteText { path: out, text },
            Format::Elf => {
                let mut object = out.clone();
                object.append(".o");
                let word = match *self {
                    X86Mode::Amd64 => String::from_str("--64"),
                    X86Mode::X86 => String::from_str("--32"),
                };
                let emulation = match *self {
                    X86Mode::Amd64 => String::from_str("elf_x86_64"),
                    X86Mode::X86 => String::from_str("elf_i386"),
                };
                let assembler = vec![String::from_str("as"), String::from_str("-o"), object.clone(), word];
                let linker = vec![
                    String::from_str("ld"),
                    object,
                    String::from_str("-o"),
                    out,
                    String::from_str("-m"),
                    emulation,
                ];
                proof {
                    assert(texts(assembler@) =~= seq!["as"@, "-o"@, out@ + ".o"@, self.word_flag()]);
                    assert(texts(linker@) =~= seq!["ld"@, out@ + ".o"@, "-o"@, out@, "-m"@, self.emulation()]);
                }
                Plan::AssembleAndLink { text, assembler, linker }
            },
        }
    }
}

} // verus!
