//! The live nftables ruleset, read into chains of raw rule lines.
use crate::chars;
use crate::command;
use crate::command::CommandOutput;
use crate::text;
use vstd::prelude::*;

verus! {

/// One rule of a chain, as `nft` prints it.
#[derive(Debug, Clone)]
pub struct FirewallRuleLine {
    pub text: String,
    pub handle: Option<String>,
}

/// A chain with its raw rule lines. Rules are not taken apart into protocol, port and action:
/// a half-parsed column would misrepresent the rules it does not fully understand.
#[derive(Debug, Clone)]
pub struct FirewallChain {
    pub table: String,
    pub name: String,
    pub hook_info: Option<String>,
    pub rules: Vec<FirewallRuleLine>,
}

#[verifier::ext_equal]
pub struct RuleView {
    pub text: Seq<char>,
    pub handle: Option<Seq<char>>,
}

#[verifier::ext_equal]
pub struct ChainView {
    pub table: Seq<char>,
    pub name: Seq<char>,
    pub hook_info: Option<Seq<char>>,
    pub rules: Seq<RuleView>,
}

impl View for FirewallRuleLine {
    type V = RuleView;

    open spec fn view(&self) -> RuleView {
        RuleView { text: self.text@, handle: chars::opt_text(self.handle) }
    }
}

impl View for FirewallChain {
    type V = ChainView;

    open spec fn view(&self) -> ChainView {
        ChainView {
            table: self.table@,
            name: self.name@,
            hook_info: chars::opt_text(self.hook_info),
            rules: self.rules@.map_values(|r: FirewallRuleLine| r@),
        }
    }
}

pub open spec fn chain_views(chains: Seq<FirewallChain>) -> Seq<ChainView> {
    chains.map_values(|c: FirewallChain| c@)
}

/// A block whose closing brace has not come yet.
pub enum Nest {
    Table(Seq<char>),
    Chain,
    /// A set, a map, a flowtable or anything else: its content is skipped, its nesting is not.
    Other,
}

/// How far a scan of the ruleset has come.
#[verifier::ext_equal]
pub struct Scan {
    /// The blocks that are open, the innermost last.
    pub stack: Seq<Nest>,
    /// The chain that is being read.
    pub current: Option<ChainView>,
    /// The chains that have been closed, in order.
    pub done: Seq<ChainView>,
}

pub open spec fn empty_scan() -> Scan {
    Scan { stack: seq![], current: None, done: seq![] }
}

/// A rule line without its handle comment, and the handle.
pub open spec fn rule_of(line: Seq<char>) -> RuleView {
    match chars::find_at(line, "# handle "@) {
        Some(k) => RuleView {
            text: chars::trimmed(line.take(k)),
            handle: Some(chars::trimmed(line.skip(k + "# handle "@.len()))),
        },
        None => RuleView { text: line, handle: None },
    }
}

/// How many more blocks a line opens than it closes.
pub open spec fn net_of(line: Seq<char>) -> int {
    chars::count_of(line, '{') - chars::count_of(line, '}')
}

pub open spec fn is_hook_line(line: Seq<char>) -> bool {
    chars::starts(line, "type "@) && chars::holds_text(line, "hook"@)
}

/// What a line that opens and closes nothing adds to the chain it stands in.
pub open spec fn with_line(c: ChainView, line: Seq<char>) -> ChainView {
    if is_hook_line(line) {
        ChainView { hook_info: Some(chars::trimmed_of(line, ';')), ..c }
    } else {
        ChainView { rules: c.rules.push(rule_of(line)), ..c }
    }
}

/// The name in the line that opens a block, given what follows its keyword.
pub open spec fn block_name(rest: Seq<char>) -> Seq<char> {
    chars::trimmed(chars::trimmed_of(rest, '{'))
}

/// The kind of block that a line opens, which depends on where it stands.
pub open spec fn opened(stack: Seq<Nest>, line: Seq<char>) -> Nest {
    if stack.len() == 0 {
        match chars::after_prefix(line, "table "@) {
            Some(rest) => Nest::Table(block_name(rest)),
            None => Nest::Other,
        }
    } else if stack.last() is Table && chars::starts(line, "chain "@) {
        Nest::Chain
    } else {
        Nest::Other
    }
}

/// The chain that a line opens inside a table.
pub open spec fn new_chain(stack: Seq<Nest>, line: Seq<char>) -> ChainView {
    ChainView {
        table: stack.last()->Table_0,
        name: block_name(line.skip("chain "@.len() as int)),
        hook_info: None,
        rules: seq![],
    }
}

pub open spec fn copies(kind: Nest, n: int) -> Seq<Nest> {
    Seq::new(n as nat, |i: int| kind)
}

/// One closing brace: a chain that ends here is complete.
pub open spec fn close_one(s: Scan) -> Scan {
    if s.stack.len() == 0 {
        s
    } else if s.stack.last() is Chain && s.current is Some {
        Scan { stack: s.stack.drop_last(), current: None, done: s.done.push(s.current->Some_0) }
    } else {
        Scan { stack: s.stack.drop_last(), ..s }
    }
}

pub open spec fn close(s: Scan, n: nat) -> Scan
    decreases n,
{
    if n == 0 {
        s
    } else {
        close_one(close(s, (n - 1) as nat))
    }
}

/// The scan after one more line.
pub open spec fn step(s: Scan, raw: Seq<char>) -> Scan {
    let line = chars::trimmed(raw);
    let net = net_of(line);
    if line.len() == 0 {
        s
    } else if net == 0 {
        if s.stack.len() > 0 && s.stack.last() is Chain && s.current is Some {
            Scan { current: Some(with_line(s.current->Some_0, line)), ..s }
        } else {
            s
        }
    } else if net > 0 {
        let kind = opened(s.stack, line);
        Scan {
            stack: s.stack + copies(kind, net),
            current: if kind is Chain {
                Some(new_chain(s.stack, line))
            } else {
                s.current
            },
            ..s
        }
    } else {
        close(s, (-net) as nat)
    }
}

/// The scan after some lines.
pub open spec fn scan_from(s: Scan, lines: Seq<Seq<char>>) -> Scan
    decreases lines.len(),
{
    if lines.len() == 0 {
        s
    } else {
        step(scan_from(s, lines.drop_last()), lines.last())
    }
}

/// The chains of a ruleset: each `chain` block that stands directly in a `table` block and is
/// closed, in the order in which they close.
pub open spec fn chains_of(ruleset: Seq<char>) -> Seq<ChainView> {
    scan_from(empty_scan(), chars::lines_of(ruleset)).done
}

/// How many more blocks some lines open than they close.
pub open spec fn depth_of(lines: Seq<Seq<char>>) -> int
    decreases lines.len(),
{
    if lines.len() == 0 {
        0
    } else {
        depth_of(lines.drop_last()) + net_of(chars::trimmed(lines.last()))
    }
}

/// Lines that open a block with their first and close it with their last.
pub open spec fn is_block(lines: Seq<Seq<char>>) -> bool {
    &&& lines.len() > 1
    &&& forall|i: int| 0 < i < lines.len() ==> depth_of(#[trigger] lines.take(i)) > 0
    &&& depth_of(lines) == 0
}

proof fn lemma_close_others(s: Scan, base: Scan, k: int, n: nat)
    requires
        n <= k,
        s == (Scan { stack: base.stack + copies(Nest::Other, k), ..base }),
    ensures
        close(s, n) == (Scan { stack: base.stack + copies(Nest::Other, k - n), ..base }),
    decreases n,
{
    if n > 0 {
        lemma_close_others(s, base, k, (n - 1) as nat);
        let t = close(s, (n - 1) as nat);
        assert(t.stack.last() == Nest::Other);
        assert(t.stack.drop_last() =~= base.stack + copies(Nest::Other, k - n));
    }
}

/// Inside a block that is neither a table nor a chain nothing changes but the nesting.
proof fn lemma_inside_block(s: Scan, lines: Seq<Seq<char>>, n: int)
    requires
        is_block(lines),
        opened(s.stack, chars::trimmed(lines[0])) is Other,
        0 < n < lines.len(),
    ensures
        scan_from(s, lines.take(n)) == (Scan {
            stack: s.stack + copies(Nest::Other, depth_of(lines.take(n))),
            ..s
        }),
    decreases n,
{
    let pre = lines.take(n);
    assert(pre.drop_last() =~= lines.take(n - 1));
    let line = chars::trimmed(lines[n - 1]);
    assert(pre.last() == lines[n - 1]);
    assert(depth_of(pre) > 0);
    if n == 1 {
        assert(lines.take(0) =~= seq![]);
        assert(scan_from(s, lines.take(0)) == s);
        assert(depth_of(lines.take(0)) == 0);
    } else {
        lemma_inside_block(s, lines, n - 1);
        let d = depth_of(lines.take(n - 1));
        let t = scan_from(s, lines.take(n - 1));
        assert(d > 0);
        assert(t.stack.last() == Nest::Other);
        let net = net_of(line);
        if line.len() == 0 {
            assert(net == 0);
        } else if net > 0 {
            assert(t.stack + copies(Nest::Other, net) =~= s.stack + copies(Nest::Other, d + net));
        } else if net < 0 {
            lemma_close_others(t, s, d, (-net) as nat);
        }
    }
}

/// A block that is neither a table nor a chain, such as a set, leaves the scan as it found it:
/// its closing brace is not taken for that of the table around it, and the chains that come
/// after it are still read.
pub proof fn law_other_block_is_skipped(s: Scan, lines: Seq<Seq<char>>)
    requires
        is_block(lines),
        opened(s.stack, chars::trimmed(lines[0])) is Other,
    ensures
        scan_from(s, lines) == s,
{
    let n = lines.len() as int;
    let line = chars::trimmed(lines[n - 1]);
    assert(lines.drop_last() =~= lines.take(n - 1));
    lemma_inside_block(s, lines, n - 1);
    let d = depth_of(lines.take(n - 1));
    let t = scan_from(s, lines.take(n - 1));
    assert(depth_of(lines.take(n - 1)) > 0);
    assert(net_of(line) == -d);
    lemma_close_others(t, s, d, d as nat);
    assert(s.stack + copies(Nest::Other, 0) =~= s.stack);
}

pub proof fn lemma_scan_add(s: Scan, a: Seq<Seq<char>>, b: Seq<Seq<char>>)
    ensures
        scan_from(s, a + b) == scan_from(scan_from(s, a), b),
    decreases b.len(),
{
    if b.len() == 0 {
        assert(a + b =~= a);
    } else {
        assert((a + b).drop_last() =~= a + b.drop_last());
        lemma_scan_add(s, a, b.drop_last());
    }
}

/// A chain is being read only while a chain block is open.
pub open spec fn is_scan(s: Scan) -> bool {
    s.current is Some ==> exists|i: int| 0 <= i < s.stack.len() && #[trigger] s.stack[i] is Chain
}

proof fn lemma_close_keeps(s: Scan, n: nat)
    requires
        is_scan(s),
    ensures
        is_scan(close(s, n)),
    decreases n,
{
    if n > 0 {
        lemma_close_keeps(s, (n - 1) as nat);
        let t = close(s, (n - 1) as nat);
        let u = close_one(t);
        if u.current is Some {
            let i = choose|i: int| 0 <= i < t.stack.len() && #[trigger] t.stack[i] is Chain;
            assert(i < t.stack.len() - 1);
            assert(u.stack[i] is Chain);
        }
    }
}

/// Every line of a ruleset keeps it so that a chain is being read only inside a chain block.
pub proof fn law_scan_is_kept(s: Scan, raw: Seq<char>)
    requires
        is_scan(s),
    ensures
        is_scan(step(s, raw)),
{
    let line = chars::trimmed(raw);
    let net = net_of(line);
    let t = step(s, raw);
    if line.len() > 0 && net > 0 {
        let kind = opened(s.stack, line);
        if kind is Chain {
            assert(t.stack[s.stack.len() as int] is Chain);
        } else if s.current is Some {
            let i = choose|i: int| 0 <= i < s.stack.len() && #[trigger] s.stack[i] is Chain;
            assert(t.stack[i] is Chain);
        }
    } else if line.len() > 0 && net < 0 {
        lemma_close_keeps(s, (-net) as nat);
    }
}

proof fn lemma_scan_keeps(s: Scan, lines: Seq<Seq<char>>)
    requires
        is_scan(s),
    ensures
        is_scan(scan_from(s, lines)),
    decreases lines.len(),
{
    if lines.len() > 0 {
        lemma_scan_keeps(s, lines.drop_last());
        law_scan_is_kept(scan_from(s, lines.drop_last()), lines.last());
    }
}

/// What has been closed before stays, in front of what the further lines close.
proof fn lemma_done_first(s: Scan, lines: Seq<Seq<char>>)
    ensures
        scan_from(s, lines) == (Scan {
            done: s.done + scan_from(Scan { done: seq![], ..s }, lines).done,
            ..scan_from(Scan { done: seq![], ..s }, lines)
        }),
    decreases lines.len(),
{
    let bare = Scan { done: seq![], ..s };
    if lines.len() == 0 {
        assert(s.done + bare.done =~= s.done);
    } else {
        lemma_done_first(s, lines.drop_last());
        let a = scan_from(s, lines.drop_last());
        let b = scan_from(bare, lines.drop_last());
        let line = chars::trimmed(lines.last());
        let net = net_of(line);
        if line.len() > 0 && net < 0 {
            lemma_close_done(a, b, s.done, (-net) as nat);
        }
    }
}

proof fn lemma_close_done(a: Scan, b: Scan, before: Seq<ChainView>, n: nat)
    requires
        a == (Scan { done: before + b.done, ..b }),
    ensures
        close(a, n) == (Scan { done: before + close(b, n).done, ..close(b, n) }),
    decreases n,
{
    if n > 0 {
        lemma_close_done(a, b, before, (n - 1) as nat);
        let t = close(b, (n - 1) as nat);
        if t.stack.len() > 0 && t.stack.last() is Chain && t.current is Some {
            assert((before + t.done).push(t.current->Some_0) =~= before + t.done.push(t.current->Some_0));
        }
    }
}

/// Tables do not disturb each other: where some lines close every block that they open, the
/// chains of the lines that follow are those that they have on their own.
pub proof fn law_tables_are_independent(a: Seq<Seq<char>>, b: Seq<Seq<char>>)
    requires
        scan_from(empty_scan(), a).stack.len() == 0,
    ensures
        scan_from(empty_scan(), a + b).done == scan_from(empty_scan(), a).done + scan_from(empty_scan(), b).done,
{
    let s = scan_from(empty_scan(), a);
    lemma_scan_add(empty_scan(), a, b);
    lemma_scan_keeps(empty_scan(), a);
    lemma_done_first(s, b);
    assert(s.current is None);
    assert(Scan { done: seq![], ..s } =~= empty_scan());
}

/// Directly inside a chain, a line with as many opening as closing braces, however many, is one
/// more rule of the chain; a hook line is not, but tells the hook. Nothing else changes.
pub proof fn law_balanced_line_is_a_rule(s: Scan, c: ChainView, raw: Seq<char>)
    requires
        s.stack.len() > 0,
        s.stack.last() is Chain,
        s.current == Some(c),
        chars::trimmed(raw).len() > 0,
        chars::count_of(chars::trimmed(raw), '{') == chars::count_of(chars::trimmed(raw), '}'),
    ensures
        ({
            let line = chars::trimmed(raw);
            if chars::starts(line, "type "@) && chars::holds_text(line, "hook"@) {
                step(s, raw) == (Scan {
                    current: Some(ChainView { hook_info: Some(chars::trimmed_of(line, ';')), ..c }),
                    ..s
                })
            } else {
                step(s, raw) == (Scan { current: Some(ChainView { rules: c.rules.push(rule_of(line)), ..c }), ..s })
            }
        }),
{
}

/// A line that is blank, or that has as many opening as closing braces and does not stand
/// directly inside a chain, changes nothing.
pub proof fn law_other_lines_change_nothing(s: Scan, raw: Seq<char>)
    requires
        chars::is_blank(raw) || (chars::count_of(chars::trimmed(raw), '{') == chars::count_of(chars::trimmed(raw), '}')
            && (s.stack.len() == 0 || !(s.stack.last() is Chain))),
    ensures
        step(s, raw) == s,
{
    if chars::is_blank(raw) {
        let none: Seq<char> = seq![];
        chars::law_trimming_keeps_the_inside(raw, none, none);
        assert(raw + none + none =~= raw);
    }
}

proof fn lemma_close_depth(s: Scan, n: nat)
    ensures
        close(s, n).stack.len() == if s.stack.len() >= n {
            s.stack.len() - n
        } else {
            0
        },
        forall|i: int| 0 <= i < close(s, n).stack.len() ==> #[trigger] close(s, n).stack[i] == s.stack[i],
        close(s, n).done.len() >= s.done.len(),
        forall|i: int| 0 <= i < s.done.len() ==> #[trigger] close(s, n).done[i] == s.done[i],
    decreases n,
{
    if n > 0 {
        let m = (n - 1) as nat;
        lemma_close_depth(s, m);
        let t = close(s, m);
        let u = close(s, n);
        assert(u == close_one(t));
        assert forall|i: int| 0 <= i < u.stack.len() implies #[trigger] u.stack[i] == s.stack[i] by {
            assert(u.stack[i] == close(s, m).stack[i]);
        }
        assert forall|i: int| 0 <= i < s.done.len() implies #[trigger] u.done[i] == s.done[i] by {
            assert(u.done[i] == close(s, m).done[i]);
        }
    }
}

/// A line opens and closes as many blocks as its braces say: the blocks further out stay open,
/// all that it opens are of one kind, and the chains read before stay.
pub proof fn law_nesting_follows_the_braces(s: Scan, raw: Seq<char>, i: int)
    requires
        chars::trimmed(raw).len() > 0,
        i >= 0,
    ensures
        ({
            let line = chars::trimmed(raw);
            let net = chars::count_of(line, '{') - chars::count_of(line, '}');
            let after = step(s, raw);
            &&& after.stack.len() == if s.stack.len() + net >= 0 {
                s.stack.len() + net
            } else {
                0
            }
            &&& i < s.stack.len() && i < after.stack.len() ==> after.stack[i] == s.stack[i]
            &&& s.stack.len() <= i < after.stack.len() ==> after.stack[i] == opened(s.stack, line)
            &&& i < s.done.len() ==> i < after.done.len() && after.done[i] == s.done[i]
            &&& net >= 0 ==> after.done == s.done
        }),
{
    let line = chars::trimmed(raw);
    let net = net_of(line);
    if net < 0 {
        lemma_close_depth(s, (-net) as nat);
        let after = step(s, raw);
        assert(after == close(s, (-net) as nat));
        assert(i < after.stack.len() ==> close(s, (-net) as nat).stack[i] == s.stack[i]);
        assert(i < s.done.len() ==> close(s, (-net) as nat).done[i] == s.done[i]);
    }
}

/// The handle comment of a rule is taken off it with the white space around, and the handle is
/// what stands behind the mark; a line without the mark is a rule without a handle, as it stands.
pub proof fn law_handle_is_taken_off(rule: Seq<char>, gap: Seq<char>, more: Seq<char>, handle: Seq<char>)
    requires
        chars::is_trim(rule),
        chars::is_trim(handle),
        chars::is_blank(gap),
        chars::is_blank(more),
        !chars::holds_text(rule + gap + "# handle"@, "# handle "@),
    ensures
        rule_of(rule + gap + "# handle "@ + (more + handle)) == (RuleView { text: rule, handle: Some(handle) }),
        rule_of(rule) == (RuleView { text: rule, handle: None }),
{
    reveal_strlit("# handle");
    reveal_strlit("# handle ");
    let mark = "# handle "@;
    let none: Seq<char> = seq![];
    let front = rule + gap;
    let line = front + mark + (more + handle);
    assert(mark.drop_last() =~= "# handle"@);
    chars::law_find_at_the_first(front, mark, more + handle);
    assert(line.take(front.len() as int) =~= none + rule + gap);
    chars::law_trimming_keeps_the_inside(none, rule, gap);
    assert(line.skip(front.len() as int + mark.len()) =~= more + handle + none);
    chars::law_trimming_keeps_the_inside(more, handle, none);
    chars::lemma_find_at(rule, mark);
    if chars::find_at(rule, mark) is Some {
        let k = chars::find_at(rule, mark)->Some_0;
        let near = front + "# handle"@;
        chars::lemma_find_at(near, mark);
        assert(near.skip(k).take(mark.len() as int) =~= rule.skip(k).take(mark.len() as int));
        assert(chars::starts(near.skip(k), mark));
        assert(!chars::starts(near.skip(k), mark));
    }
}

/// How far a line is indented, and what white space follows it, does not matter.
pub proof fn law_indentation_does_not_matter(s: Scan, front: Seq<char>, line: Seq<char>, back: Seq<char>)
    requires
        chars::is_blank(front),
        chars::is_blank(back),
        chars::is_trim(line),
    ensures
        step(s, front + line + back) == step(s, line),
{
    chars::law_trimming_keeps_the_inside(front, line, back);
    chars::law_trim_text_stays(line);
}

/// The name of a block is what stands between its keyword and its brace, without the white space
/// around it.
pub proof fn law_name_stands_before_the_brace(front: Seq<char>, name: Seq<char>, back: Seq<char>)
    requires
        chars::is_blank(front),
        chars::is_blank(back),
        chars::is_trim(name),
        name.len() > 0,
        name.last() != '{',
    ensures
        block_name(front + name + back + seq!['{']) == name,
        block_name(front + name + back) == name,
{
    let inner = front + name + back;
    assert(inner.last() != '{') by {
        if back.len() > 0 {
            assert(inner.last() == back[back.len() - 1]);
        } else {
            assert(inner.last() == name.last());
        }
    }
    chars::law_repetitions_are_taken_off(inner, '{', 1);
    chars::law_repetitions_are_taken_off(inner, '{', 0);
    assert(inner + Seq::new(1, |i: int| '{') =~= inner + seq!['{']);
    assert(inner + Seq::new(0, |i: int| '{') =~= inner);
    chars::law_trimming_keeps_the_inside(front, name, back);
}

/// A table is what a line starting with `table ` opens outside of any block, a chain what a line
/// starting with `chain ` opens directly inside a table; any other block is neither.
pub proof fn law_blocks_by_where_they_stand(stack: Seq<Nest>, line: Seq<char>)
    ensures
        opened(stack, line) is Table <==> stack.len() == 0 && chars::starts(line, "table "@),
        opened(stack, line) is Chain <==> stack.len() > 0 && stack.last() is Table && chars::starts(line, "chain "@),
{
}

/// A name as it stands behind the keyword of a block.
pub open spec fn is_block_name(name: Seq<char>) -> bool {
    &&& name.len() > 0
    &&& chars::is_trim(name)
    &&& !name.contains('{')
    &&& !name.contains('}')
}

proof fn lemma_opening_line(word: Seq<char>, name: Seq<char>)
    requires
        is_block_name(name),
        chars::is_trim(word.drop_last()),
        word.len() > 1,
        word.last() == ' ',
        chars::count_of(word, '{') == 0,
        chars::count_of(word, '}') == 0,
    ensures
        ({
            let line = word + name + seq![' ', '{'];
            &&& chars::trimmed(line) == line
            &&& net_of(line) == 1
            &&& chars::starts(line, word)
            &&& block_name(line.skip(word.len() as int)) == name
        }),
{
    let tail = seq![' ', '{'];
    let line = word + name + tail;
    assert(line[0] == word.drop_last()[0]);
    assert(line.last() == '{');
    chars::law_trim_text_stays(line);
    reveal_with_fuel(chars::count_of, 3);
    assert(tail.drop_last() =~= seq![' ']);
    assert(seq![' '].drop_last() =~= Seq::<char>::empty());
    chars::law_count_is_of_places(name, '{');
    chars::law_count_is_of_places(name, '}');
    chars::lemma_count_add(word + name, tail, '{');
    chars::lemma_count_add(word + name, tail, '}');
    chars::lemma_count_add(word, name, '{');
    chars::lemma_count_add(word, name, '}');
    assert(line.take(word.len() as int) =~= word);
    let rest = line.skip(word.len() as int);
    let spaced = name + seq![' '];
    let brace = Seq::new(1, |i: int| '{');
    assert(rest =~= spaced + brace);
    chars::law_repetitions_are_taken_off(spaced, '{', 1);
    let none: Seq<char> = seq![];
    chars::law_trimming_keeps_the_inside(none, name, seq![' ']);
    assert(none + name + seq![' '] =~= spaced);
}

proof fn lemma_closing_line()
    ensures
        chars::trimmed("}"@) == "}"@,
        net_of("}"@) == -1,
{
    reveal_strlit("}");
    chars::law_trim_text_stays("}"@);
    reveal_with_fuel(chars::count_of, 2);
    assert("}"@.drop_last() =~= Seq::<char>::empty());
}

/// Whether a line stands directly inside a chain and opens and closes as much.
pub open spec fn is_chain_line(raw: Seq<char>) -> bool {
    chars::count_of(chars::trimmed(raw), '{') == chars::count_of(chars::trimmed(raw), '}')
}

/// The lines that tell a hook, trimmed.
pub open spec fn hooks_in(body: Seq<Seq<char>>) -> Seq<Seq<char>> {
    body.map_values(|l: Seq<char>| chars::trimmed(l)).filter(
        |l: Seq<char>| chars::starts(l, "type "@) && chars::holds_text(l, "hook"@),
    )
}

/// The other lines that are not blank, trimmed.
pub open spec fn rules_in(body: Seq<Seq<char>>) -> Seq<Seq<char>> {
    body.map_values(|l: Seq<char>| chars::trimmed(l)).filter(
        |l: Seq<char>| l.len() > 0 && !(chars::starts(l, "type "@) && chars::holds_text(l, "hook"@)),
    )
}

/// Inside a chain, each line that is not blank and tells no hook adds one rule, in order, and the
/// last that tells a hook tells the hook of the chain.
pub proof fn law_chain_has_a_rule_for_each_line(s: Scan, c: ChainView, body: Seq<Seq<char>>)
    requires
        s.stack.len() > 0,
        s.stack.last() is Chain,
        s.current == Some(c),
        forall|i: int| 0 <= i < body.len() ==> is_chain_line(#[trigger] body[i]),
    ensures
        scan_from(s, body) == (Scan {
            current: Some(
                ChainView {
                    hook_info: if hooks_in(body).len() > 0 {
                        Some(chars::trimmed_of(hooks_in(body).last(), ';'))
                    } else {
                        c.hook_info
                    },
                    rules: c.rules + rules_in(body).map_values(|l: Seq<char>| rule_of(l)),
                    ..c
                },
            ),
            ..s
        }),
    decreases body.len(),
{
    reveal(Seq::filter);
    reveal_strlit("type ");
    let lines = body.map_values(|l: Seq<char>| chars::trimmed(l));
    if body.len() == 0 {
        assert(c.rules + rules_in(body).map_values(|l: Seq<char>| rule_of(l)) =~= c.rules);
        assert(hooks_in(body).len() == 0);
    } else {
        let rest = body.drop_last();
        let less = rest.map_values(|l: Seq<char>| chars::trimmed(l));
        assert forall|i: int| 0 <= i < rest.len() implies is_chain_line(#[trigger] rest[i]) by {
            assert(is_chain_line(body[i]));
        }
        law_chain_has_a_rule_for_each_line(s, c, rest);
        assert(lines.drop_last() =~= less);
        let line = chars::trimmed(body.last());
        assert(lines.last() == line);
        assert(is_chain_line(body[body.len() - 1]));
        let t = scan_from(s, rest);
        let rs = rules_in(rest).map_values(|l: Seq<char>| rule_of(l));
        if line.len() > 0 {
            law_balanced_line_is_a_rule(t, t.current->Some_0, body.last());
            if !(chars::starts(line, "type "@) && chars::holds_text(line, "hook"@)) {
                assert(rules_in(body) =~= rules_in(rest).push(line));
                assert(rules_in(body).map_values(|l: Seq<char>| rule_of(l)) =~= rs.push(rule_of(line)));
                assert((c.rules + rs).push(rule_of(line)) =~= c.rules + rs.push(rule_of(line)));
            }
        } else {
            assert(!chars::starts(line, "type "@));
        }
    }
}

/// A chain inside a table: its name is what stands behind `chain `, its table the one around it,
/// and its rules and its hook those of the lines between its braces. With its closing brace it
/// comes behind the chains read before, and the table is read on.
pub proof fn law_chain_is_read(s: Scan, table: Seq<char>, name: Seq<char>, body: Seq<Seq<char>>)
    requires
        s.stack.len() > 0,
        s.stack.last() == Nest::Table(table),
        s.current is None,
        is_block_name(name),
        forall|i: int| 0 <= i < body.len() ==> is_chain_line(#[trigger] body[i]),
    ensures
        scan_from(s, seq!["chain "@ + name + seq![' ', '{']] + body + seq!["}"@]) == (Scan {
            done: s.done.push(
                ChainView {
                    table,
                    name,
                    hook_info: if hooks_in(body).len() > 0 {
                        Some(chars::trimmed_of(hooks_in(body).last(), ';'))
                    } else {
                        None
                    },
                    rules: rules_in(body).map_values(|l: Seq<char>| rule_of(l)),
                },
            ),
            ..s
        }),
{
    reveal_strlit("chain ");
    reveal_with_fuel(chars::count_of, 7);
    let word = "chain "@;
    let open = word + name + seq![' ', '{'];
    chars::law_count_is_of_places(word, '{');
    chars::law_count_is_of_places(word, '}');
    lemma_opening_line(word, name);
    lemma_closing_line();
    let bare = ChainView { table, name, hook_info: None, rules: seq![] };
    let a = scan_from(s, seq![open]);
    assert(seq![open].drop_last() =~= Seq::<Seq<char>>::empty());
    assert(scan_from(s, Seq::<Seq<char>>::empty()) == s);
    assert(a == step(s, open));
    assert(copies(Nest::Chain, 1) =~= seq![Nest::Chain]);
    assert(a.stack =~= s.stack.push(Nest::Chain));
    assert(a.current == Some(bare));
    lemma_scan_add(s, seq![open], body);
    law_chain_has_a_rule_for_each_line(a, bare, body);
    let b = scan_from(a, body);
    let rs = rules_in(body).map_values(|l: Seq<char>| rule_of(l));
    assert(bare.rules + rs =~= rs);
    let all = seq![open] + body + seq!["}"@];
    assert(all.drop_last() =~= seq![open] + body);
    assert(all.last() == "}"@);
    assert(scan_from(s, all) == step(b, "}"@));
    reveal_strlit("}");
    assert(close(b, 0) == b);
    assert(close(b, 1) == close_one(b));
    assert(b.stack.drop_last() =~= s.stack);
}

/// A table is entered by the line that names it, outside of any block, and left by its closing
/// brace.
pub proof fn law_table_is_entered_and_left(name: Seq<char>, done: Seq<ChainView>)
    requires
        is_block_name(name),
    ensures
        ({
            let outside = Scan { stack: seq![], current: None, done };
            let inside = Scan { stack: seq![Nest::Table(name)], current: None, done };
            &&& step(outside, "table "@ + name + seq![' ', '{']) == inside
            &&& step(inside, "}"@) == outside
        }),
{
    reveal_strlit("table ");
    let word = "table "@;
    chars::law_count_is_of_places(word, '{');
    chars::law_count_is_of_places(word, '}');
    lemma_opening_line(word, name);
    lemma_closing_line();
    reveal_strlit("}");
    let outside = Scan { stack: seq![], current: None, done };
    let inside = Scan { stack: seq![Nest::Table(name)], current: None, done };
    assert(copies(Nest::Table(name), 1) =~= seq![Nest::Table(name)]);
    assert(step(outside, word + name + seq![' ', '{']).stack =~= inside.stack);
    assert(close(inside, 0) == inside);
    assert(close(inside, 1) == close_one(inside));
    assert(inside.stack.drop_last() =~= outside.stack);
}

/// A table with one chain gives that chain.
pub proof fn law_table_with_a_chain(table: Seq<char>, name: Seq<char>, body: Seq<Seq<char>>)
    requires
        is_block_name(table),
        is_block_name(name),
        forall|i: int| 0 <= i < body.len() ==> is_chain_line(#[trigger] body[i]),
    ensures
        ({
            let chain = seq!["chain "@ + name + seq![' ', '{']] + body + seq!["}"@];
            let s = scan_from(empty_scan(), seq!["table "@ + table + seq![' ', '{']] + chain + seq!["}"@]);
            &&& s.stack.len() == 0
            &&& s.done.len() == 1
            &&& s.done[0].table == table
            &&& s.done[0].name == name
            &&& s.done[0].rules == rules_in(body).map_values(|l: Seq<char>| rule_of(l))
            &&& hooks_in(body).len() == 0 ==> s.done[0].hook_info is None
            &&& hooks_in(body).len() > 0 ==> s.done[0].hook_info == Some(chars::trimmed_of(hooks_in(body).last(), ';'))
        }),
{
    let open = "table "@ + table + seq![' ', '{'];
    let chain = seq!["chain "@ + name + seq![' ', '{']] + body + seq!["}"@];
    let inside = Scan { stack: seq![Nest::Table(table)], current: None, done: seq![] };
    law_table_is_entered_and_left(table, seq![]);
    assert(seq![open].drop_last() =~= Seq::<Seq<char>>::empty());
    assert(scan_from(empty_scan(), Seq::<Seq<char>>::empty()) == empty_scan());
    assert(scan_from(empty_scan(), seq![open]) == inside);
    law_chain_is_read(inside, table, name, body);
    lemma_scan_add(empty_scan(), seq![open], chain);
    let after = scan_from(inside, chain);
    law_table_is_entered_and_left(table, after.done);
    let all = seq![open] + chain + seq!["}"@];
    assert(all.drop_last() =~= seq![open] + chain);
}

/// The blocks that are open while the ruleset is read.
enum Block {
    Table(String),
    Chain,
    Other,
}

spec fn nest_of(b: Block) -> Nest {
    match b {
        Block::Table(t) => Nest::Table(t@),
        Block::Chain => Nest::Chain,
        Block::Other => Nest::Other,
    }
}

spec fn nests(stack: Seq<Block>) -> Seq<Nest> {
    stack.map_values(|b: Block| nest_of(b))
}

spec fn opt_chain(c: Option<FirewallChain>) -> Option<ChainView> {
    match c {
        Some(c) => Some(c@),
        None => None,
    }
}

spec fn state_of(stack: Seq<Block>, current: Option<FirewallChain>, done: Seq<FirewallChain>) -> Scan {
    Scan { stack: nests(stack), current: opt_chain(current), done: chain_views(done) }
}

/// Takes the handle comment off a rule line.
pub fn split_handle(line: &str) -> (r: (String, Option<String>))
    ensures
        r.0@ == rule_of(line@).text,
        chars::opt_text(r.1) == rule_of(line@).handle,
{
    let cs: Vec<char> = text::chars_of(line);
    let rule: FirewallRuleLine = rule_line(cs.as_slice());
    (rule.text, rule.handle)
}

fn rule_line(line: &[char]) -> (r: FirewallRuleLine)
    ensures
        r@ == rule_of(line@),
{
    let mark: &str = "# handle ";
    match text::find(line, mark) {
        Some(k) => {
            let n: usize = text::chars_of(mark).len();
            assert(k + n <= line.len());
            FirewallRuleLine {
                text: text::string_of(text::trim(text::front(line, k))),
                handle: Some(text::string_of(text::trim(text::past(line, k + n)))),
            }
        },
        None => FirewallRuleLine { text: text::string_of(line), handle: None },
    }
}

fn add_line(c: FirewallChain, line: &[char]) -> (r: FirewallChain)
    ensures
        r@ == with_line(c@, line@),
{
    let mut c: FirewallChain = c;
    if text::starts_with(line, "type ") && text::contains(line, "hook") {
        c.hook_info = Some(text::string_of(text::trim_end_of(line, ';')));
    } else {
        let ghost before = c.rules@;
        let rule: FirewallRuleLine = rule_line(line);
        c.rules.push(rule);
        assert(c.rules@.map_values(|r: FirewallRuleLine| r@) =~= before.map_values(|r: FirewallRuleLine| r@).push(
            rule@,
        ));
    }
    c
}

fn name_of(rest: &[char]) -> (r: String)
    ensures
        r@ == block_name(rest@),
{
    text::string_of(text::trim(text::trim_end_of(rest, '{')))
}

fn copy_block(b: &Block) -> (r: Block)
    ensures
        nest_of(r) == nest_of(*b),
{
    match b {
        Block::Table(t) => Block::Table(t.clone()),
        Block::Chain => Block::Chain,
        Block::Other => Block::Other,
    }
}

proof fn lemma_nests_push(stack: Seq<Block>, b: Block)
    ensures
        nests(stack.push(b)) == nests(stack).push(nest_of(b)),
{
    assert(nests(stack.push(b)) =~= nests(stack).push(nest_of(b)));
}

/// The block that a line opens, and the chain that it starts, if it starts one.
fn open_block(stack: &Vec<Block>, line: &[char]) -> (r: (Block, Option<FirewallChain>))
    ensures
        nest_of(r.0) == opened(nests(stack@), line@),
        r.1 is Some == r.0 is Chain,
        r.0 is Chain ==> opt_chain(r.1) == Some(new_chain(nests(stack@), line@)),
{
    if stack.len() == 0 {
        return match text::strip_prefix(line, "table ") {
            Some(rest) => (Block::Table(name_of(rest)), None),
            None => (Block::Other, None),
        };
    }
    let top: &Block = &stack[stack.len() - 1];
    assert(nests(stack@).last() == nest_of(*top));
    match top {
        Block::Table(table) => match text::strip_prefix(line, "chain ") {
            Some(rest) => {
                let c: FirewallChain = FirewallChain {
                    table: table.clone(),
                    name: name_of(rest),
                    hook_info: None,
                    rules: Vec::new(),
                };
                assert(c@ =~= new_chain(nests(stack@), line@));
                (Block::Chain, Some(c))
            },
            None => (Block::Other, None),
        },
        _ => (Block::Other, None),
    }
}

/// Reads the output of `nft -a list ruleset`. Braces are counted on each line and the nesting
/// is followed, so that a set, map or other block inside a table is skipped as a whole. A rule
/// that spans several lines is not put together.
pub fn parse_ruleset(ruleset: &str) -> (r: Vec<FirewallChain>)
    ensures
        chain_views(r@) == chains_of(ruleset@),
{
    let cs: Vec<char> = text::chars_of(ruleset);
    let lines: Vec<&[char]> = text::lines(cs.as_slice());
    let ghost all = chars::lines_of(ruleset@);
    let mut chains: Vec<FirewallChain> = Vec::new();
    let mut stack: Vec<Block> = Vec::new();
    let mut current: Option<FirewallChain> = None;
    let mut i: usize = 0;
    proof {
        assert(state_of(stack@, current, chains@) =~= empty_scan());
        assert(all.take(0) =~= seq![]);
    }
    while i < lines.len()
        invariant
            i <= lines@.len(),
            chars::texts(lines@) == all,
            state_of(stack@, current, chains@) == scan_from(empty_scan(), all.take(i as int)),
        decreases lines.len() - i,
    {
        let ghost s = state_of(stack@, current, chains@);
        let line: &[char] = text::trim(lines[i]);
        proof {
            assert(all.take(i + 1).drop_last() =~= all.take(i as int));
            assert(all[i as int] == lines@[i as int]@);
        }
        i += 1;
        if line.len() == 0 {
            continue;
        }
        let opens: usize = text::count(line, '{');
        let closes: usize = text::count(line, '}');
        if opens == closes {
            if stack.len() > 0 {
                assert(s.stack.last() == nest_of(stack@.last()));
                if let Block::Chain = &stack[stack.len() - 1] {
                    if let Some(c) = current {
                        current = Some(add_line(c, line));
                    }
                }
            }
            assert(state_of(stack@, current, chains@) =~= step(s, all[i - 1]));
        } else if opens > closes {
            let (kind, chain): (Block, Option<FirewallChain>) = open_block(&stack, line);
            if let Some(c) = chain {
                current = Some(c);
            }
            let net: usize = opens - closes;
            let mut k: usize = 0;
            assert(nests(stack@) =~= s.stack + copies(nest_of(kind), 0));
            while k < net
                invariant
                    k <= net,
                    nests(stack@) == s.stack + copies(nest_of(kind), k as int),
                decreases net - k,
            {
                let b: Block = copy_block(&kind);
                proof {
                    lemma_nests_push(stack@, b);
                }
                stack.push(b);
                k += 1;
                assert(nests(stack@) =~= s.stack + copies(nest_of(kind), k as int));
            }
            assert(state_of(stack@, current, chains@) =~= step(s, all[i - 1]));
        } else {
            let net: usize = closes - opens;
            let mut k: usize = 0;
            while k < net
                invariant
                    k <= net,
                    state_of(stack@, current, chains@) == close(s, k as nat),
                decreases net - k,
            {
                let ghost t = state_of(stack@, current, chains@);
                let ghost before = stack@;
                let ghost closed = chains@;
                if let Some(b) = stack.pop() {
                    assert(nests(stack@) =~= t.stack.drop_last());
                    assert(t.stack.last() == nest_of(b));
                    if let Block::Chain = b {
                        if let Some(c) = current {
                            chains.push(c);
                            current = None;
                            assert(chain_views(chains@) =~= t.done.push(c@));
                        }
                    }
                }
                k += 1;
                assert(state_of(stack@, current, chains@) =~= close_one(t));
            }
        }
    }
    assert(all.take(i as int) =~= all);
    chains
}

/// What is told when the ruleset could not be read.
pub open spec fn ruleset_error(stderr: Seq<char>) -> Seq<char> {
    if chars::trimmed(stderr).len() == 0 {
        "couldn't read the firewall ruleset — cancelled, or nftables not in use on this system"@
    } else {
        chars::trimmed(stderr)
    }
}

/// The ruleset that a run of `nft` printed, or why there is none.
pub open spec fn ruleset_of(run: Result<command::CommandView, Seq<char>>) -> Result<Seq<ChainView>, Seq<char>> {
    match run {
        Ok(o) => if o.code == Some(0i32) {
            Ok(chains_of(o.stdout))
        } else {
            Err(ruleset_error(o.stderr))
        },
        Err(e) => Err(e),
    }
}

pub open spec fn result_view(r: Result<Vec<FirewallChain>, String>) -> Result<Seq<ChainView>, Seq<char>> {
    match r {
        Ok(v) => Ok(chain_views(v@)),
        Err(e) => Err(e@),
    }
}

/// The ruleset that a run of `pkexec nft -a list ruleset` printed. Rules are kept as they are
/// written: taking them apart into columns would misrepresent those that are not understood.
pub fn read_ruleset(run: &Result<CommandOutput, String>) -> (r: Result<Vec<FirewallChain>, String>)
    ensures
        result_view(r) == ruleset_of(command::start_view(*run)),
{
    match run {
        Ok(o) => {
            if o.succeeded() {
                return Ok(parse_ruleset(o.stdout.as_str()));
            }
            let cs: Vec<char> = text::chars_of(o.stderr.as_str());
            let t: &[char] = text::trim(cs.as_slice());
            if t.len() == 0 {
                Err(
                    "couldn't read the firewall ruleset — cancelled, or nftables not in use on this system".to_string(),
                )
            } else {
                Err(text::string_of(t))
            }
        },
        Err(e) => Err(e.clone()),
    }
}


/// A ruleset is read exactly where the run that prints it ended with exit code zero; the reason
/// is otherwise what it complained of, trimmed, or that it was cancelled where it complained of
/// nothing, or why it could not be started.
pub proof fn law_ruleset_needs_a_successful_run(
    code: Option<i32>,
    stdout: Seq<char>,
    reason: Seq<char>,
    back: Seq<char>,
)
    requires
        chars::is_trim(reason),
        chars::is_blank(back),
    ensures
        ({
            let run = command::CommandView { code, stdout, stderr: reason + back };
            &&& code == Some(0i32) ==> ruleset_of(Ok(run)) == Ok::<Seq<ChainView>, Seq<char>>(
                scan_from(empty_scan(), chars::lines_of(stdout)).done,
            )
            &&& code != Some(0i32) && reason.len() > 0 ==> ruleset_of(Ok(run)) == Err::<Seq<ChainView>, Seq<char>>(reason)
            &&& code != Some(0i32) && reason.len() == 0 ==> ruleset_of(Ok(run)) == Err::<Seq<ChainView>, Seq<char>>(
                "couldn't read the firewall ruleset — cancelled, or nftables not in use on this system"@,
            )
            &&& ruleset_of(Err(reason)) == Err::<Seq<ChainView>, Seq<char>>(reason)
        }),
{
    let none: Seq<char> = seq![];
    chars::law_trimming_keeps_the_inside(none, reason, back);
    assert(none + reason + back =~= reason + back);
}

} // verus!
