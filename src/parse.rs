use vstd::prelude::*;
use vstd::string::StringExecFns;
use crate::bstream::{ByteStream, line_at, column_at};
use crate::hlist::HeadedList;
use crate::syntax::{is_instruction, repeat_byte, render_forest, render_node, AstNode, Location, Node, DEC_CHAR, GETC_CHAR, INC_CHAR, LOOP_END_CHAR, LOOP_START_CHAR, NEXT_CHAR, PREV_CHAR, PUTC_CHAR};

verus! {

/// An error found while building the tree, with where it was found.
#[derive(Clone, Debug)]
pub struct ParseError {
    message: String,
    loc: Location,
}

impl ParseError {
    pub closed spec fn message_view(&self) -> Seq<char> {
        self.message@
    }

    pub closed spec fn loc_view(&self) -> Location {
        self.loc
    }

    pub fn new(message: String, loc: Location) -> (r: Self)
        ensures
            r.message_view() == message@,
            r.loc_view() == loc,
    {
        Self { message, loc }
    }

    pub fn message(&self) -> (r: &String)
        ensures
            r@ == self.message_view(),
    {
        &self.message
    }

    pub fn loc(&self) -> (r: &Location)
        ensures
            *r == self.loc_view(),
    {
        &self.loc
    }
}

/// The bytes whose runs are counted into one node.
pub open spec fn is_run_op(b: u8) -> bool {
    b == INC_CHAR || b == DEC_CHAR || b == NEXT_CHAR || b == PREV_CHAR
}

proof fn lemma_run_len(t: Seq<u8>, j: int, e: int)
    requires
        0 <= j < e <= t.len(),
        forall|k: int| j <= k < e ==> t[k] == t[j],
        e == t.len() || t[e] != t[j],
    ensures
        run_len(t, j) == e - j,
    decreases e - j,
{
    if j + 1 < e {
        lemma_run_len(t, j + 1, e);
    }
}

/// The number of bytes equal to `t[j]` that start at `j`.
pub open spec fn run_len(t: Seq<u8>, j: int) -> nat
    decreases t.len() - j,
{
    if 0 <= j && j + 1 < t.len() && t[j + 1] == t[j] {
        1 + run_len(t, j + 1)
    } else {
        1
    }
}

/// The instruction bytes of `s`, in order.
pub open spec fn instructions(s: Seq<u8>) -> Seq<u8>
    decreases s.len(),
{
    if s.len() == 0 {
        Seq::empty()
    } else if is_instruction(s.last()) {
        instructions(s.drop_last()).push(s.last())
    } else {
        instructions(s.drop_last())
    }
}

/// What a node says of the source: the byte it starts with, how many it
/// counts, and where it stands.
pub struct Site {
    pub byte: u8,
    pub count: nat,
    pub file: Seq<char>,
    pub line: nat,
    pub column: nat,
}

/// A node begins at `j` of `t` (read from `start`): an instruction other than a
/// loop's end, and for a counted byte, the first of its run.
pub open spec fn is_site(t: Seq<u8>, start: int, j: int) -> bool {
    &&& start <= j < t.len()
    &&& is_instruction(t[j])
    &&& t[j] != LOOP_END_CHAR
    &&& (!is_run_op(t[j]) || j == start || t[j - 1] != t[j])
}

pub open spec fn site_at(file: Seq<char>, t: Seq<u8>, j: int) -> Site {
    Site {
        byte: t[j],
        count: if is_run_op(t[j]) { run_len(t, j) } else { 1 },
        file,
        line: line_at(t.take(j)),
        column: column_at(t.take(j)),
    }
}

/// The sites among positions `start .. i` of `t`, in order.
pub open spec fn sites_between(file: Seq<char>, t: Seq<u8>, start: int, i: int) -> Seq<Site>
    decreases i - start,
{
    if i <= start {
        Seq::empty()
    } else if is_site(t, start, i - 1) {
        sites_between(file, t, start, i - 1).push(site_at(file, t, i - 1))
    } else {
        sites_between(file, t, start, i - 1)
    }
}

/// The positions of the loop openers among `start .. i` that no closer has
/// matched yet, innermost last.
pub open spec fn opens(t: Seq<u8>, start: int, i: int) -> Seq<int>
    decreases i - start,
{
    if i <= start {
        Seq::empty()
    } else {
        let o = opens(t, start, i - 1);
        if t[i - 1] == LOOP_START_CHAR {
            o.push(i - 1)
        } else if t[i - 1] == LOOP_END_CHAR && o.len() > 0 {
            o.drop_last()
        } else {
            o
        }
    }
}

/// The positions of the loop closers among `start .. i` with no open loop to
/// close, in order.
pub open spec fn unmatched(t: Seq<u8>, start: int, i: int) -> Seq<int>
    decreases i - start,
{
    if i <= start {
        Seq::empty()
    } else {
        let u = unmatched(t, start, i - 1);
        if t[i - 1] == LOOP_END_CHAR && opens(t, start, i - 1).len() == 0 {
            u.push(i - 1)
        } else {
            u
        }
    }
}

pub open spec fn loc_site(byte: u8, count: nat, loc: Location) -> Site {
    Site { byte, count, file: loc.file@, line: loc.line as nat, column: loc.column as nat }
}

/// The site of a node: the byte it renders first, and its count.
pub open spec fn node_site(n: Node<AstNode>) -> Site {
    match n.val {
        AstNode::Increment(k) => loc_site(INC_CHAR, k as nat, n.loc),
        AstNode::Decrement(k) => loc_site(DEC_CHAR, k as nat, n.loc),
        AstNode::Next(k) => loc_site(NEXT_CHAR, k as nat, n.loc),
        AstNode::Previous(k) => loc_site(PREV_CHAR, k as nat, n.loc),
        AstNode::PutChar() => loc_site(PUTC_CHAR, 1, n.loc),
        AstNode::GetChar() => loc_site(GETC_CHAR, 1, n.loc),
        AstNode::Loop(_) => loc_site(LOOP_START_CHAR, 1, n.loc),
    }
}

/// The sites of a node and of all nodes below it, in source order.
pub open spec fn flatten_node(n: Node<AstNode>) -> Seq<Site>
    decreases n,
{
    match n.val {
        AstNode::Loop(body) => seq![node_site(n)] + flatten_forest(body@),
        _ => seq![node_site(n)],
    }
}

pub open spec fn flatten_forest(ns: Seq<Node<AstNode>>) -> Seq<Site>
    decreases ns,
{
    if ns.len() == 0 {
        Seq::empty()
    } else {
        flatten_forest(ns.drop_last()) + flatten_node(ns.last())
    }
}

/// Whether `l` is the location of position `j` of `t` in `file`.
pub open spec fn is_loc_of(l: Location, file: Seq<char>, t: Seq<u8>, j: int) -> bool {
    &&& l.file@ == file
    &&& l.line as nat == line_at(t.take(j))
    &&& l.column as nat == column_at(t.take(j))
}

pub open spec fn is_error_at(e: ParseError, msg: Seq<char>, file: Seq<char>, t: Seq<u8>, j: int) -> bool {
    e.message_view() == msg && is_loc_of(e.loc_view(), file, t, j)
}

pub open spec fn no_loop_msg() -> Seq<char> {
    "No loop to terminate"@
}

pub open spec fn unterminated_msg() -> Seq<char> {
    "Unterminated loop"@
}

/// The errors of bytes `start ..` of `t`: first each closer with no loop to
/// close, in order, then each loop left open, innermost first.
pub open spec fn errors_ok(errs: Seq<ParseError>, file: Seq<char>, t: Seq<u8>, start: int) -> bool {
    let u = unmatched(t, start, t.len() as int);
    let o = opens(t, start, t.len() as int);
    &&& errs.len() == u.len() + o.len()
    &&& forall|k: int| 0 <= k < u.len() ==> is_error_at(#[trigger] errs[k], no_loop_msg(), file, t, u[k])
    &&& forall|k: int| 0 <= k < o.len() ==> is_error_at(#[trigger] errs[u.len() + k], unterminated_msg(), file, t, o[o.len() - 1 - k])
}

/// Whether the bytes `start ..` of `t` close every loop they open, and open
/// every loop they close.
pub open spec fn well_bracketed(t: Seq<u8>, start: int) -> bool {
    unmatched(t, start, t.len() as int).len() == 0 && opens(t, start, t.len() as int).len() == 0
}

/// The number of bytes equal to `b` among positions `start .. i` of `t`.
pub open spec fn count_between(t: Seq<u8>, start: int, i: int, b: u8) -> nat
    decreases i - start,
{
    if i <= start {
        0
    } else {
        count_between(t, start, i - 1, b) + if t[i - 1] == b { 1nat } else { 0nat }
    }
}

/// Every opener either is still open or was closed, and every closer either
/// closed a loop or is unmatched; the positions kept are openers and closers,
/// in increasing order.
pub proof fn lemma_bracket_counts(t: Seq<u8>, start: int, i: int)
    requires
        0 <= start <= i <= t.len(),
    ensures
        unmatched(t, start, i).len() + count_between(t, start, i, LOOP_START_CHAR) == opens(t, start, i).len()
            + count_between(t, start, i, LOOP_END_CHAR),
        forall|k: int| 0 <= k < unmatched(t, start, i).len() ==> {
            let p = #[trigger] unmatched(t, start, i)[k];
            start <= p < i && t[p] == LOOP_END_CHAR
        },
        forall|k: int| 0 <= k < opens(t, start, i).len() ==> {
            let p = #[trigger] opens(t, start, i)[k];
            start <= p < i && t[p] == LOOP_START_CHAR
        },
        forall|k: int, l: int| 0 <= k < l < opens(t, start, i).len() ==> opens(t, start, i)[k] < opens(t, start, i)[l],
    decreases i - start,
{
    if i > start {
        lemma_bracket_counts(t, start, i - 1);
        let o = opens(t, start, i - 1);
        let u = unmatched(t, start, i - 1);
        assert forall|k: int| 0 <= k < unmatched(t, start, i).len() implies {
            let p = #[trigger] unmatched(t, start, i)[k];
            start <= p < i && t[p] == LOOP_END_CHAR
        } by {
            if k < u.len() {
                assert(unmatched(t, start, i)[k] == u[k]);
            }
        }
        assert forall|k: int| 0 <= k < opens(t, start, i).len() implies {
            let p = #[trigger] opens(t, start, i)[k];
            start <= p < i && t[p] == LOOP_START_CHAR
        } by {
            if k < o.len() {
                assert(opens(t, start, i)[k] == o[k]);
            }
        }
        assert forall|k: int, l: int| 0 <= k < l < opens(t, start, i).len() implies opens(t, start, i)[k] < opens(t, start, i)[l] by {
            if l < o.len() {
                assert(opens(t, start, i)[k] == o[k]);
                assert(opens(t, start, i)[l] == o[l]);
            } else {
                assert(opens(t, start, i)[k] == o[k]);
            }
        }
    }
}

/// A stream with more closers than openers has at least one closer with no
/// loop to terminate per excess closer, and each of them is a closer.
pub proof fn lemma_excess_closers(t: Seq<u8>, start: int)
    requires
        0 <= start <= t.len(),
        count_between(t, start, t.len() as int, LOOP_END_CHAR) > count_between(t, start, t.len() as int, LOOP_START_CHAR),
    ensures
        unmatched(t, start, t.len() as int).len() >= count_between(t, start, t.len() as int, LOOP_END_CHAR)
            - count_between(t, start, t.len() as int, LOOP_START_CHAR),
        forall|k: int| 0 <= k < unmatched(t, start, t.len() as int).len() ==> t[#[trigger] unmatched(t, start, t.len() as int)[k]] == LOOP_END_CHAR,
        !well_bracketed(t, start),
{
    lemma_bracket_counts(t, start, t.len() as int);
}

/// A stream with more openers than closers leaves at least one loop open per
/// excess opener; each is an opener, and they stand in source order, so the
/// errors, which take them last first, report the innermost first.
pub proof fn lemma_excess_openers(t: Seq<u8>, start: int)
    requires
        0 <= start <= t.len(),
        count_between(t, start, t.len() as int, LOOP_START_CHAR) > count_between(t, start, t.len() as int, LOOP_END_CHAR),
    ensures
        opens(t, start, t.len() as int).len() >= count_between(t, start, t.len() as int, LOOP_START_CHAR)
            - count_between(t, start, t.len() as int, LOOP_END_CHAR),
        forall|k: int| 0 <= k < opens(t, start, t.len() as int).len() ==> t[#[trigger] opens(t, start, t.len() as int)[k]] == LOOP_START_CHAR,
        forall|k: int, l: int| 0 <= k < l < opens(t, start, t.len() as int).len() ==> opens(t, start, t.len() as int)[k] < opens(t, start, t.len() as int)[l],
        !well_bracketed(t, start),
{
    lemma_bracket_counts(t, start, t.len() as int);
}

proof fn lemma_flatten_len(ns: Seq<Node<AstNode>>)
    ensures
        flatten_forest(ns).len() >= ns.len(),
    decreases ns.len(),
{
    if ns.len() > 0 {
        lemma_flatten_len(ns.drop_last());
        let n = ns.last();
        match n.val {
            AstNode::Loop(body) => {
                assert(flatten_node(n) == seq![node_site(n)] + flatten_forest(body@));
            },
            _ => {
                assert(flatten_node(n) == seq![node_site(n)]);
            },
        }
    }
}

proof fn lemma_run_sites(file: Seq<char>, c: u8, k: nat, i: int)
    requires
        is_run_op(c),
        1 <= i <= k,
    ensures
        sites_between(file, repeat_byte(c, k), 0, i) == seq![site_at(file, repeat_byte(c, k), 0)],
    decreases i,
{
    let t = repeat_byte(c, k);
    if i > 1 {
        lemma_run_sites(file, c, k, i - 1);
        assert(!is_site(t, 0, i - 1));
    } else {
        assert(sites_between(file, t, 0, 0) =~= Seq::<Site>::empty());
    }
}

/// A run of `k` equal counted bytes becomes exactly one node, counting `k`,
/// at line 1, column 1: this holds of any tree that `parse` may return for it.
pub proof fn lemma_run_coalesced(file: Seq<char>, c: u8, k: nat, tree: Seq<Node<AstNode>>)
    requires
        is_run_op(c),
        k >= 1,
        flatten_forest(tree) == sites_between(file, repeat_byte(c, k), 0, k as int),
    ensures
        tree.len() == 1,
        node_site(tree[0]) == (Site { byte: c, count: k, file, line: 1, column: 1 }),
{
    let t = repeat_byte(c, k);
    lemma_run_sites(file, c, k, k as int);
    lemma_run_len(t, 0, k as int);
    assert(t.take(0) =~= Seq::<u8>::empty());
    lemma_flatten_len(tree);
    if tree.len() == 0 {
        assert(flatten_forest(tree).len() == 0);
    }
    assert(tree.drop_last().len() == 0);
    assert(flatten_forest(tree.drop_last()) =~= Seq::<Site>::empty());
    assert(flatten_forest(tree) =~= flatten_node(tree.last()));
    assert(flatten_node(tree[0])[0] == node_site(tree[0]));
}

/// A loop being read: the nodes so far, and where it opened.
#[derive(Debug)]
struct Frame {
    ops: Vec<Node<AstNode>>,
    loc: Location,
}

/// The instruction bytes that a stack of open frames (innermost first) stands for.
spec fn stack_render(fs: Seq<Frame>) -> Seq<u8>
    decreases fs.len(),
{
    if fs.len() <= 1 {
        if fs.len() == 1 { render_forest(fs[0].ops@) } else { Seq::empty() }
    } else {
        stack_render(fs.drop_first()) + seq![LOOP_START_CHAR] + render_forest(fs[0].ops@)
    }
}

/// The sites of a stack of open frames (innermost first), in source order.
spec fn stack_sites(fs: Seq<Frame>) -> Seq<Site>
    decreases fs.len(),
{
    if fs.len() <= 1 {
        if fs.len() == 1 { flatten_forest(fs[0].ops@) } else { Seq::empty() }
    } else {
        stack_sites(fs.drop_first()) + seq![loc_site(LOOP_START_CHAR, 1, fs[0].loc)] + flatten_forest(
            fs[0].ops@,
        )
    }
}

/// Adding a node to the innermost frame adds what it stands for at the end.
proof fn lemma_push_top(fs: Seq<Frame>, gs: Seq<Frame>, n: Node<AstNode>)
    requires
        fs.len() >= 1,
        gs == fs.update(0, gs[0]),
        gs[0].ops@ == fs[0].ops@.push(n),
        gs[0].loc == fs[0].loc,
    ensures
        stack_render(gs) == stack_render(fs) + render_node(n.val),
        stack_sites(gs) == stack_sites(fs) + flatten_node(n),
{
    assert(gs.drop_first() =~= fs.drop_first());
    assert(gs[0].ops@.drop_last() == fs[0].ops@);
    if fs.len() > 1 {
        assert(stack_render(gs) =~= stack_render(fs) + render_node(n.val));
        assert(stack_sites(gs) =~= stack_sites(fs) + flatten_node(n));
    } else {
        assert(stack_sites(gs) =~= stack_sites(fs) + flatten_node(n));
    }
}

/// The frames below the innermost opened where `opens` says.
spec fn frames_at_opens(fs: Seq<Frame>, file: Seq<char>, t: Seq<u8>, o: Seq<int>) -> bool {
    &&& fs.len() == o.len() + 1
    &&& forall|k: int| 0 <= k < o.len() ==> is_loc_of(#[trigger] fs[k].loc, file, t, o[o.len() - 1 - k])
}

/// Builds the tree of the bytes left in `stream`, or gives every error in them.
pub fn parse(stream: ByteStream) -> (r: Result<Vec<Node<AstNode>>, Vec<ParseError>>)
    requires
        stream.wf(),
    ensures
        r is Ok <==> well_bracketed(stream.text(), stream.offset()),
        r matches Ok(tree) ==> render_forest(tree@) == instructions(stream.text().subrange(stream.offset(), stream.text().len() as int)),
        r matches Ok(tree) ==> flatten_forest(tree@) == sites_between(stream.file_name(), stream.text(), stream.offset(), stream.text().len() as int),
        r matches Err(errs) ==> errors_ok(errs@, stream.file_name(), stream.text(), stream.offset()),
{
    let ghost t = stream.text();
    let ghost f = stream.file_name();
    let ghost start = stream.offset();
    proof {
        stream.lemma_wf();
    }
    let mut stream = stream;
    let mut errs: Vec<ParseError> = Vec::new();
    let mut loops = HeadedList::new(Frame { ops: Vec::new(), loc: stream.loc() }, None);
    proof {
        assert(t.subrange(start, start).len() == 0);
        assert(loops@.len() == 1);
    }
    loop
        invariant
            stream.wf(),
            stream.text() == t,
            stream.file_name() == f,
            0 <= start <= stream.offset() <= t.len() < u64::MAX,
            unmatched(t, start, stream.offset()).len() == 0 ==> stack_render(loops@) == instructions(t.subrange(start, stream.offset())),
            stack_sites(loops@) == sites_between(f, t, start, stream.offset()),
            frames_at_opens(loops@, f, t, opens(t, start, stream.offset())),
            errs@.len() == unmatched(t, start, stream.offset()).len(),
            forall|k: int| 0 <= k < errs@.len() ==> is_error_at(#[trigger] errs@[k], no_loop_msg(), f, t, unmatched(t, start, stream.offset())[k]),
            stream.offset() == start || stream.offset() >= t.len() || !is_run_op(t[stream.offset()]) || t[stream.offset() - 1] != t[stream.offset()],
        ensures
            stream.offset() == t.len(),
            unmatched(t, start, t.len() as int).len() == 0 ==> stack_render(loops@) == instructions(t.subrange(start, t.len() as int)),
            stack_sites(loops@) == sites_between(f, t, start, t.len() as int),
            frames_at_opens(loops@, f, t, opens(t, start, t.len() as int)),
            errs@.len() == unmatched(t, start, t.len() as int).len(),
            forall|k: int| 0 <= k < errs@.len() ==> is_error_at(#[trigger] errs@[k], no_loop_msg(), f, t, unmatched(t, start, t.len() as int)[k]),
        decreases t.len() - stream.offset(),
    {
        let ch = match stream.current() {
            Some(c) => c,
            None => break,
        };
        let ghost i = stream.offset();
        proof {
            assert(t.subrange(start, i + 1).drop_last() == t.subrange(start, i));
            assert(t.subrange(start, i + 1).last() == ch);
        }
        if ch == INC_CHAR || ch == DEC_CHAR || ch == NEXT_CHAR || ch == PREV_CHAR {
            let loc = stream.loc();
            let mut count: u64 = 1;
            stream.next();
            loop
                invariant
                    stream.wf(),
                    stream.text() == t,
                    stream.file_name() == f,
                    0 <= start <= i < t.len() < u64::MAX,
                    is_run_op(ch),
                    i + count == stream.offset(),
                    stream.offset() <= t.len(),
                    1 <= count,
                    t[i] == ch,
                    forall|j: int| i <= j < i + count ==> t[j] == ch,
                    instructions(t.subrange(start, stream.offset())) == instructions(t.subrange(start, i)) + repeat_byte(ch, count as nat),
                    sites_between(f, t, start, stream.offset()) == sites_between(f, t, start, i).push(site_at(f, t, i)),
                    opens(t, start, stream.offset()) == opens(t, start, i),
                    unmatched(t, start, stream.offset()) == unmatched(t, start, i),
                ensures
                    i + count == t.len() || t[i + count] != ch,
                decreases t.len() - stream.offset(),
            {
                match stream.current() {
                    Some(c) => {
                        if c != ch {
                            break;
                        }
                    },
                    None => break,
                }
                let ghost k = stream.offset();
                proof {
                    assert(t.subrange(start, k + 1).drop_last() == t.subrange(start, k));
                    assert(t.subrange(start, k + 1).last() == ch);
                    assert(repeat_byte(ch, count as nat + 1) =~= repeat_byte(ch, count as nat).push(ch));
                    assert(!is_site(t, start, k));
                }
                count = count + 1;
                stream.next();
            }
            proof {
                lemma_run_len(t, i, i + count);
            }
            let node = if ch == INC_CHAR {
                AstNode::Increment(count)
            } else if ch == DEC_CHAR {
                AstNode::Decrement(count)
            } else if ch == NEXT_CHAR {
                AstNode::Next(count)
            } else {
                AstNode::Previous(count)
            };
            let ghost n = Node { val: node, loc };
            let ghost before = loops@;
            loops.val_mut().ops.push(Node { val: node, loc });
            proof {
                lemma_push_top(before, loops@, n);
                assert(render_node(n.val) =~= repeat_byte(ch, count as nat));
                assert(flatten_node(n) =~= seq![site_at(f, t, i)]);
                assert(sites_between(f, t, start, i).push(site_at(f, t, i)) =~= sites_between(f, t, start, i) + seq![site_at(f, t, i)]);
            }
        } else if ch == PUTC_CHAR || ch == GETC_CHAR {
            let node = if ch == PUTC_CHAR { AstNode::PutChar() } else { AstNode::GetChar() };
            let loc = stream.loc();
            let ghost n = Node { val: node, loc };
            let ghost before = loops@;
            loops.val_mut().ops.push(Node { val: node, loc });
            proof {
                lemma_push_top(before, loops@, n);
                assert(is_site(t, start, i));
                assert(flatten_node(n) =~= seq![site_at(f, t, i)]);
                assert(render_node(n.val) =~= seq![ch]);
                assert(instructions(t.subrange(start, i + 1)) =~= instructions(t.subrange(start, i)) + seq![ch]);
                assert(sites_between(f, t, start, i + 1) =~= sites_between(f, t, start, i) + seq![site_at(f, t, i)]);
            }
            stream.next();
        } else if ch == LOOP_START_CHAR {
            let ghost before = loops@;
            loops.receive(Frame { ops: Vec::new(), loc: stream.loc() });
            proof {
                assert(loops@.drop_first() =~= before);
                assert(render_forest(loops@[0].ops@) =~= Seq::<u8>::empty());
                assert(flatten_forest(loops@[0].ops@) =~= Seq::<Site>::empty());
                assert(stack_render(loops@) =~= stack_render(before) + seq![ch]);
                assert(instructions(t.subrange(start, i + 1)) =~= instructions(t.subrange(start, i)) + seq![ch]);
                assert(loc_site(LOOP_START_CHAR, 1, loops@[0].loc) == site_at(f, t, i));
                assert(stack_sites(loops@) =~= sites_between(f, t, start, i) + seq![site_at(f, t, i)]);
                assert(sites_between(f, t, start, i + 1) =~= sites_between(f, t, start, i) + seq![site_at(f, t, i)]);
                let o = opens(t, start, i + 1);
                assert(o == opens(t, start, i).push(i));
                assert forall|k: int| 0 <= k < o.len() implies is_loc_of(#[trigger] loops@[k].loc, f, t, o[o.len() - 1 - k]) by {
                    if k > 0 {
                        assert(loops@[k] == before[k - 1]);
                    }
                }
            }
            stream.next();
        } else if ch == LOOP_END_CHAR {
            let ghost before_take = loops@;
            match loops.take() {
                Some(lp) => {
                    let ghost n = Node { val: AstNode::Loop(lp.ops), loc: lp.loc };
                    let ghost before = loops@;
                    loops.val_mut().ops.push(Node { val: AstNode::Loop(lp.ops), loc: lp.loc });
                    proof {
                        lemma_push_top(before, loops@, n);
                        assert(before == before_take.drop_first());
                        assert(render_node(n.val) =~= seq![LOOP_START_CHAR] + render_forest(lp.ops@) + seq![LOOP_END_CHAR]);
                        assert(stack_render(loops@) =~= stack_render(before_take) + seq![ch]);
                        assert(instructions(t.subrange(start, i + 1)) =~= instructions(t.subrange(start, i)) + seq![ch]);
                        assert(flatten_node(n) =~= seq![loc_site(LOOP_START_CHAR, 1, lp.loc)] + flatten_forest(lp.ops@));
                        assert(stack_sites(loops@) =~= stack_sites(before_take));
                        let o = opens(t, start, i + 1);
                        assert(o =~= opens(t, start, i).drop_last());
                        assert forall|k: int| 0 <= k < o.len() implies is_loc_of(#[trigger] loops@[k].loc, f, t, o[o.len() - 1 - k]) by {
                            assert(loops@[k].loc == before_take[k + 1].loc);
                        }
                    }
                },
                None => {
                    errs.push(ParseError { message: String::from_str("No loop to terminate"), loc: stream.loc() });
                    proof {
                        assert(unmatched(t, start, i + 1) == unmatched(t, start, i).push(i));
                    }
                },
            }
            stream.next();
        } else {
            stream.next();
        }
    }
    let ghost u = unmatched(t, start, t.len() as int);
    let ghost o = opens(t, start, t.len() as int);
    loop
        invariant
            loops@.len() >= 1,
            errs@.len() >= u.len(),
            errs@.len() + loops@.len() == u.len() + o.len() + 1,
            forall|k: int| 0 <= k < u.len() ==> is_error_at(#[trigger] errs@[k], no_loop_msg(), f, t, u[k]),
            forall|k: int| u.len() <= k < errs@.len() ==> is_error_at(#[trigger] errs@[k], unterminated_msg(), f, t, o[o.len() - 1 - (k - u.len())]),
            forall|k: int| 0 <= k < loops@.len() - 1 ==> is_loc_of(#[trigger] loops@[k].loc, f, t, o[loops@.len() - 2 - k]),
            loops@.len() == o.len() + 1 && u.len() == 0 ==> stack_render(loops@) == instructions(t.subrange(start, t.len() as int)),
            loops@.len() == o.len() + 1 ==> stack_sites(loops@) == sites_between(f, t, start, t.len() as int),
        ensures
            loops@.len() == 1,
            errs@.len() == u.len() + o.len(),
            forall|k: int| 0 <= k < u.len() ==> is_error_at(#[trigger] errs@[k], no_loop_msg(), f, t, u[k]),
            forall|k: int| u.len() <= k < errs@.len() ==> is_error_at(#[trigger] errs@[k], unterminated_msg(), f, t, o[o.len() - 1 - (k - u.len())]),
            o.len() == 0 && u.len() == 0 ==> stack_render(loops@) == instructions(t.subrange(start, t.len() as int)),
            o.len() == 0 ==> stack_sites(loops@) == sites_between(f, t, start, t.len() as int),
        decreases loops@.len(),
    {
        match loops.take() {
            Some(lp) => {
                errs.push(ParseError { message: String::from_str("Unterminated loop"), loc: lp.loc });
            },
            None => break,
        }
    }
    if errs.len() > 0 {
        Err(errs)
    } else {
        Ok(loops.reclaim_val().ops)
    }
}

} // verus!
