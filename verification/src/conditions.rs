//! Rule conditions: their parsing from the left-hand side of a rule
//! (`<conditions> -> <command>`) into a condition tree, and the evaluation of
//! that tree against the current display state.
use vstd::prelude::*;

use crate::text::{
    chars_eq_str, chars_of, is_white_space, is_white_space_spec, parse_usize, parse_usize_spec, string_from_chars,
    sub_chars, trim, trim_chars,
};

verus! {

/// One condition of a rule, or an operator that combines two of them.
#[derive(Debug)]
pub enum Condition {
    DisplayName(String),
    NumDisplays(usize),
    MoreThanNumDisplays(usize),
    LessThanNumDisplays(usize),
    AddedDisplay,
    RemovedDisplay,
    And,
    Or,
    Not,
    NoCondition,
}

/// The mathematical value of a [`Condition`]: names are character sequences.
pub enum ConditionView {
    DisplayName(Seq<char>),
    NumDisplays(usize),
    MoreThanNumDisplays(usize),
    LessThanNumDisplays(usize),
    AddedDisplay,
    RemovedDisplay,
    And,
    Or,
    Not,
    NoCondition,
}

impl View for Condition {
    type V = ConditionView;

    open spec fn view(&self) -> ConditionView {
        match self {
            Condition::DisplayName(s) => ConditionView::DisplayName(s@),
            Condition::NumDisplays(n) => ConditionView::NumDisplays(*n),
            Condition::MoreThanNumDisplays(n) => ConditionView::MoreThanNumDisplays(*n),
            Condition::LessThanNumDisplays(n) => ConditionView::LessThanNumDisplays(*n),
            Condition::AddedDisplay => ConditionView::AddedDisplay,
            Condition::RemovedDisplay => ConditionView::RemovedDisplay,
            Condition::And => ConditionView::And,
            Condition::Or => ConditionView::Or,
            Condition::Not => ConditionView::Not,
            Condition::NoCondition => ConditionView::NoCondition,
        }
    }
}

impl Clone for Condition {
    fn clone(&self) -> (r: Self)
        ensures
            r@ == self@,
    {
        match self {
            Condition::DisplayName(s) => Condition::DisplayName(s.clone()),
            Condition::NumDisplays(n) => Condition::NumDisplays(*n),
            Condition::MoreThanNumDisplays(n) => Condition::MoreThanNumDisplays(*n),
            Condition::LessThanNumDisplays(n) => Condition::LessThanNumDisplays(*n),
            Condition::AddedDisplay => Condition::AddedDisplay,
            Condition::RemovedDisplay => Condition::RemovedDisplay,
            Condition::And => Condition::And,
            Condition::Or => Condition::Or,
            Condition::Not => Condition::Not,
            Condition::NoCondition => Condition::NoCondition,
        }
    }
}

impl PartialEq for Condition {
    fn eq(&self, other: &Self) -> (r: bool) {
        match (self, other) {
            (Condition::DisplayName(a), Condition::DisplayName(b)) => a.eq(b),
            (Condition::NumDisplays(a), Condition::NumDisplays(b)) => *a == *b,
            (Condition::MoreThanNumDisplays(a), Condition::MoreThanNumDisplays(b)) => *a == *b,
            (Condition::LessThanNumDisplays(a), Condition::LessThanNumDisplays(b)) => *a == *b,
            (Condition::AddedDisplay, Condition::AddedDisplay) => true,
            (Condition::RemovedDisplay, Condition::RemovedDisplay) => true,
            (Condition::And, Condition::And) => true,
            (Condition::Or, Condition::Or) => true,
            (Condition::Not, Condition::Not) => true,
            (Condition::NoCondition, Condition::NoCondition) => true,
            _ => false,
        }
    }
}

impl vstd::std_specs::cmp::PartialEqSpecImpl for Condition {
    open spec fn obeys_eq_spec() -> bool {
        true
    }

    open spec fn eq_spec(&self, other: &Self) -> bool {
        self@ == other@
    }
}

/// A node of a condition tree: a condition, and for an operator its two operands.
#[derive(Debug)]
pub struct ConditionNode {
    pub condition: Condition,
    pub left: Option<Box<ConditionNode>>,
    pub right: Option<Box<ConditionNode>>,
}

/// The mathematical value of a [`ConditionNode`].
pub struct NodeView {
    pub condition: ConditionView,
    pub left: Option<Box<NodeView>>,
    pub right: Option<Box<NodeView>>,
}

impl ConditionNode {
    /// The tree as a value of [`NodeView`].
    pub open spec fn tree(self) -> NodeView
        decreases self,
    {
        NodeView {
            condition: self.condition@,
            left: match self.left {
                Some(l) => Some(Box::new((*l).tree())),
                Option::None => Option::None,
            },
            right: match self.right {
                Some(r) => Some(Box::new((*r).tree())),
                Option::None => Option::None,
            },
        }
    }

    /// The longest chain of children below this node.
    pub open spec fn height(self) -> nat
        decreases self,
    {
        let hl: nat = match self.left {
            Some(l) => (*l).height() + 1,
            Option::None => 0,
        };
        let hr: nat = match self.right {
            Some(r) => (*r).height() + 1,
            Option::None => 0,
        };
        if hl >= hr {
            hl
        } else {
            hr
        }
    }

    /// The nodes of the tree in pre-order (node, left subtree, right subtree),
    /// each with its depth counted from `level`.
    pub open spec fn outline(self, level: nat) -> Seq<(nat, Condition)>
        decreases self,
    {
        let below_left = match self.left {
            Some(l) => (*l).outline(level + 1),
            Option::None => Seq::empty(),
        };
        let below_right = match self.right {
            Some(r) => (*r).outline(level + 1),
            Option::None => Seq::empty(),
        };
        seq![(level, self.condition)] + below_left + below_right
    }
}

/// A copy of the tree below `n`.
pub fn copy_tree(n: &ConditionNode) -> (r: ConditionNode)
    ensures
        r@ == n@,
    decreases n,
{
    let left = match &n.left {
        Some(l) => Some(Box::new(copy_tree(l))),
        Option::None => Option::None,
    };
    let right = match &n.right {
        Some(r) => Some(Box::new(copy_tree(r))),
        Option::None => Option::None,
    };
    ConditionNode { condition: n.condition.clone(), left, right }
}

impl Clone for ConditionNode {
    fn clone(&self) -> (r: Self)
        ensures
            r@ == self@,
    {
        copy_tree(self)
    }
}

impl View for ConditionNode {
    type V = NodeView;

    open spec fn view(&self) -> NodeView {
        self.tree()
    }
}

/// The displays that are connected now, and whether one was added or removed
/// since the last look.
pub struct DisplayState {
    pub current_displays: Vec<String>,
    pub added: bool,
    pub removed: bool,
}

pub struct DisplayStateView {
    pub displays: Seq<Seq<char>>,
    pub added: bool,
    pub removed: bool,
}

impl View for DisplayState {
    type V = DisplayStateView;

    open spec fn view(&self) -> DisplayStateView {
        DisplayStateView {
            displays: self.current_displays@.map_values(|d: String| d@),
            added: self.added,
            removed: self.removed,
        }
    }
}

pub open spec fn leaf(c: ConditionView) -> NodeView {
    NodeView { condition: c, left: Option::None, right: Option::None }
}

pub open spec fn branch(op: ConditionView, l: NodeView, r: NodeView) -> NodeView {
    NodeView { condition: op, left: Some(Box::new(l)), right: Some(Box::new(r)) }
}

/// Every `and` and `or` node of the tree has both operands.
pub open spec fn evaluable(n: NodeView) -> bool
    decreases n,
{
    match n.condition {
        ConditionView::And | ConditionView::Or => match (n.left, n.right) {
            (Some(l), Some(r)) => evaluable(*l) && evaluable(*r),
            _ => false,
        },
        _ => true,
    }
}

/// Whether the condition tree holds in the display state `st`.  `and` and `or`
/// look at their right operand only when the left one does not decide.
pub open spec fn eval(n: NodeView, st: DisplayStateView) -> bool
    decreases n,
{
    match n.condition {
        ConditionView::DisplayName(name) => st.displays.contains(name),
        ConditionView::NumDisplays(k) => st.displays.len() == k,
        ConditionView::MoreThanNumDisplays(k) => st.displays.len() > k,
        ConditionView::LessThanNumDisplays(k) => st.displays.len() < k,
        ConditionView::AddedDisplay => st.added,
        ConditionView::RemovedDisplay => st.removed,
        ConditionView::And => match n.left {
            Some(l) => if eval(*l, st) {
                match n.right {
                    Some(r) => eval(*r, st),
                    None => false,
                }
            } else {
                false
            },
            None => false,
        },
        ConditionView::Or => match n.left {
            Some(l) => if eval(*l, st) {
                true
            } else {
                match n.right {
                    Some(r) => eval(*r, st),
                    None => false,
                }
            },
            None => false,
        },
        _ => false,
    }
}

/// Every operand that the evaluation in `st` looks at is there: an `and` or
/// `or` node has its left operand, and its right one whenever the left one does
/// not decide.
pub open spec fn can_eval(n: NodeView, st: DisplayStateView) -> bool
    decreases n,
{
    match n.condition {
        ConditionView::And => match n.left {
            Some(l) => can_eval(*l, st) && (eval(*l, st) ==> match n.right {
                Some(r) => can_eval(*r, st),
                None => false,
            }),
            None => false,
        },
        ConditionView::Or => match n.left {
            Some(l) => can_eval(*l, st) && (!eval(*l, st) ==> match n.right {
                Some(r) => can_eval(*r, st),
                None => false,
            }),
            None => false,
        },
        _ => true,
    }
}

/// A tree whose `and` and `or` nodes all have both operands can be evaluated
/// in every display state.
pub proof fn lemma_evaluable_can_eval(n: NodeView, st: DisplayStateView)
    requires
        evaluable(n),
    ensures
        can_eval(n, st),
    decreases n,
{
    if n.condition is And || n.condition is Or {
        match (n.left, n.right) {
            (Some(l), Some(r)) => {
                lemma_evaluable_can_eval(*l, st);
                lemma_evaluable_can_eval(*r, st);
            },
            _ => {},
        }
    }
}

pub open spec fn is_operator(c: ConditionView) -> bool {
    c is And || c is Or || c is Not
}

/// The number after the sign of a `=N`, `>N` or `<N` condition, or `default`
/// where it does not parse.
pub open spec fn count_after_sign(t: Seq<char>, default: usize) -> usize {
    match parse_usize_spec(trim(t.drop_first())) {
        Some(n) => n,
        Option::None => default,
    }
}

/// The condition that one word of a rule stands for.
pub open spec fn parse_condition_spec(word: Seq<char>) -> ConditionView {
    let t = trim(word);
    if t.len() > 0 && t[0] == '=' {
        ConditionView::NumDisplays(count_after_sign(t, 0xffffffff))
    } else if t.len() > 0 && t[0] == '>' {
        ConditionView::MoreThanNumDisplays(count_after_sign(t, 0xffffffff))
    } else if t.len() > 0 && t[0] == '<' {
        ConditionView::LessThanNumDisplays(count_after_sign(t, 0))
    } else if t == "+"@ {
        ConditionView::AddedDisplay
    } else if t == "-"@ {
        ConditionView::RemovedDisplay
    } else if t == "and"@ {
        ConditionView::And
    } else if t == "or"@ {
        ConditionView::Or
    } else if t.len() > 0 && t[0] == '"' {
        if t.last() == '"' {
            ConditionView::DisplayName(t.subrange(1, t.len() - 1))
        } else {
            ConditionView::DisplayName(t.drop_first())
        }
    } else if t.len() > 0 {
        ConditionView::DisplayName(t)
    } else {
        ConditionView::NoCondition
    }
}

/// A lone quote: the one word on which the condition parser has no answer.
pub open spec fn is_lone_quote(word: Seq<char>) -> bool {
    trim(word) == seq!['"']
}

/// Where the word splitter stands after some characters: the finished words,
/// the word being read, and whether a quote is open.
pub struct ScanState {
    pub done: Seq<Seq<char>>,
    pub cur: Seq<char>,
    pub quoted: bool,
}

pub open spec fn scan_step(st: ScanState, c: char) -> ScanState {
    if c == '"' {
        ScanState { done: st.done, cur: st.cur.push(c), quoted: !st.quoted }
    } else if is_white_space_spec(c) && !st.quoted {
        if st.cur.len() > 0 {
            ScanState { done: st.done.push(st.cur), cur: Seq::empty(), quoted: st.quoted }
        } else {
            st
        }
    } else {
        ScanState { done: st.done, cur: st.cur.push(c), quoted: st.quoted }
    }
}

pub open spec fn scan(s: Seq<char>) -> ScanState
    decreases s.len(),
{
    if s.len() == 0 {
        ScanState { done: Seq::empty(), cur: Seq::empty(), quoted: false }
    } else {
        scan_step(scan(s.drop_last()), s.last())
    }
}

/// The words of `s`: runs of characters separated by white space outside quotes.
pub open spec fn words(s: Seq<char>) -> Seq<Seq<char>> {
    let st = scan(s);
    if st.cur.len() > 0 {
        st.done.push(st.cur)
    } else {
        st.done
    }
}

/// The conditions and operators that `s` lists, in order.
pub open spec fn split_conditions_spec(s: Seq<char>) -> Seq<ConditionView> {
    words(s).map_values(|w: Seq<char>| parse_condition_spec(w))
}

pub open spec fn no_lone_quote(s: Seq<char>) -> bool {
    forall|i: int| 0 <= i < words(s).len() ==> !is_lone_quote(#[trigger] words(s)[i])
}

pub open spec fn operands(cs: Seq<ConditionView>) -> Seq<ConditionView> {
    cs.filter(|c: ConditionView| !is_operator(c))
}

pub open spec fn operators(cs: Seq<ConditionView>) -> Seq<ConditionView> {
    cs.filter(|c: ConditionView| is_operator(c))
}

/// The tree of a rule with one operator fewer than operands: the operands
/// joined in reading order by the operators in reading order, each operator
/// taking the operand before it on the left and everything after it on the
/// right: `o1 p1 (o2 p2 (... o(k+1)))`.
pub open spec fn build_tree(os: Seq<ConditionView>, ps: Seq<ConditionView>) -> NodeView
    decreases ps.len(),
{
    if ps.len() == 0 {
        leaf(os[0])
    } else {
        branch(ps[0], leaf(os[0]), build_tree(os.drop_first(), ps.drop_first()))
    }
}

/// One step of the queue reduction: the two nodes at the front are taken off,
/// the first as the right operand and the second as the left one, and the
/// operator's node joins the back.
pub open spec fn queue_reduce(q: Seq<NodeView>, ps: Seq<ConditionView>) -> Seq<NodeView>
    decreases ps.len(),
{
    if ps.len() == 0 {
        q
    } else {
        queue_reduce(q.skip(2).push(branch(ps[0], q[1], q[0])), ps.drop_first())
    }
}

/// The leaves of the operands, last operand first.
pub open spec fn reversed_leaves(os: Seq<ConditionView>) -> Seq<NodeView> {
    Seq::new(os.len(), |i: int| leaf(os[os.len() - 1 - i]))
}

/// The operators, last operator first.
pub open spec fn reversed_operators(ps: Seq<ConditionView>) -> Seq<ConditionView> {
    Seq::new(ps.len(), |i: int| ps[ps.len() - 1 - i])
}

/// The tree of a rule with more operands than an operator each needs: the
/// leaves of the operands, last first, are reduced as a queue by the
/// operators, last first, and the node at the back of the queue is the tree.
/// Operands that no operator reaches before the end stay out of it.
pub open spec fn queue_tree(os: Seq<ConditionView>, ps: Seq<ConditionView>) -> NodeView {
    queue_reduce(reversed_leaves(os), reversed_operators(ps)).last()
}

/// The tree of a rule from its operands and operators in reading order: with
/// one operator fewer than operands, [`build_tree`]; with still fewer
/// operators, [`queue_tree`].
pub open spec fn rule_tree(os: Seq<ConditionView>, ps: Seq<ConditionView>) -> NodeView {
    if ps.len() + 1 == os.len() {
        build_tree(os, ps)
    } else {
        queue_tree(os, ps)
    }
}

/// Whether the conditions `os`, joined by the operators `ps` as [`build_tree`]
/// joins them, hold in `st`: evaluated from left to right.
pub open spec fn holds_in_order(os: Seq<ConditionView>, ps: Seq<ConditionView>, st: DisplayStateView) -> bool
    decreases ps.len(),
{
    let first = eval(leaf(os[0]), st);
    if ps.len() == 0 {
        first
    } else if ps[0] is And {
        first && holds_in_order(os.drop_first(), ps.drop_first(), st)
    } else if ps[0] is Or {
        first || holds_in_order(os.drop_first(), ps.drop_first(), st)
    } else {
        false
    }
}

pub open spec fn is_arrow_at(s: Seq<char>, i: int) -> bool {
    0 <= i && i + 1 < s.len() && s[i] == '-' && s[i + 1] == '>'
}

/// `s` holds `->` at `p` and nowhere else.
pub open spec fn single_arrow_at(s: Seq<char>, p: int) -> bool {
    is_arrow_at(s, p) && forall|j: int| #[trigger] is_arrow_at(s, j) ==> j == p
}

pub open spec fn has_single_arrow(s: Seq<char>) -> bool {
    exists|p: int| single_arrow_at(s, p)
}

pub open spec fn arrow_pos(s: Seq<char>) -> int {
    choose|p: int| single_arrow_at(s, p)
}

/// After trimming, the rule starts with `#`.
pub open spec fn is_comment(s: Seq<char>) -> bool {
    let t = trim(s);
    t.len() > 0 && t[0] == '#'
}

/// The conditions and operators on the left of the arrow.
pub open spec fn rule_conditions(s: Seq<char>) -> Seq<ConditionView> {
    split_conditions_spec(trim(s.take(arrow_pos(s))))
}

/// The command on the right of the arrow.
pub open spec fn rule_command(s: Seq<char>) -> Seq<char> {
    trim(s.skip(arrow_pos(s) + 2))
}

/// What a rule stands for: a comment gives a `NoCondition` leaf and no command; a rule
/// with one arrow gives its condition tree and command; anything else has no
/// meaning (`Option::None`), which `parse_rule` reports as an error.
pub open spec fn parse_rule_spec(s: Seq<char>) -> Option<(NodeView, Seq<char>)> {
    if is_comment(s) {
        Some((leaf(ConditionView::NoCondition), Seq::empty()))
    } else if has_single_arrow(s) {
        let cs = rule_conditions(s);
        Some((rule_tree(operands(cs), operators(cs)), rule_command(s)))
    } else {
        Option::None
    }
}

/// The rules on which `parse_rule` has an answer: comments, rules without
/// exactly one arrow (refused), and rules whose condition list has no lone
/// quote, at least one condition, and fewer operators than conditions.
pub open spec fn rule_in_domain(s: Seq<char>) -> bool {
    is_comment(s) || !has_single_arrow(s) || {
        let lhs = trim(s.take(arrow_pos(s)));
        let cs = split_conditions_spec(lhs);
        &&& no_lone_quote(lhs)
        &&& operands(cs).len() >= 1
        &&& operators(cs).len() < operands(cs).len()
    }
}

pub open spec fn views_of(cs: Seq<Condition>) -> Seq<ConditionView> {
    cs.map_values(|c: Condition| c@)
}

/// Every operator of a built tree has both operands.
proof fn lemma_build_tree_evaluable(os: Seq<ConditionView>, ps: Seq<ConditionView>)
    requires
        ps.len() < os.len(),
        forall|i: int| 0 <= i < ps.len() ==> is_operator(#[trigger] ps[i]),
        forall|i: int| 0 <= i < os.len() ==> !is_operator(#[trigger] os[i]),
    ensures
        evaluable(build_tree(os, ps)),
    decreases ps.len(),
{
    if ps.len() > 0 {
        assert forall|i: int| 0 <= i < ps.drop_first().len() implies is_operator(
            #[trigger] ps.drop_first()[i],
        ) by {
            assert(ps.drop_first()[i] == ps[i + 1]);
        }
        assert forall|i: int| 0 <= i < os.drop_first().len() implies !is_operator(
            #[trigger] os.drop_first()[i],
        ) by {
            assert(os.drop_first()[i] == os[i + 1]);
        }
        assert(!is_operator(os[0]));
        assert(evaluable(leaf(os[0])));
        lemma_build_tree_evaluable(os.drop_first(), ps.drop_first());
        assert(is_operator(ps[0]));
    } else {
        assert(!is_operator(os[0]));
    }
}

/// The number after the first character of `t`, or `default`.
fn parse_count_after_sign(t: &Vec<char>, default: usize) -> (n: usize)
    requires
        t@.len() > 0,
    ensures
        n == count_after_sign(t@, default),
{
    let rest = sub_chars(t, 1, t.len());
    assert(rest@ =~= t@.drop_first());
    let digits = trim_chars(&rest);
    match parse_usize(&digits) {
        Some(n) => n,
        Option::None => default,
    }
}

/// The condition that one word of a rule stands for.
fn parse_condition(word: &Vec<char>) -> (c: Condition)
    requires
        !is_lone_quote(word@),
    ensures
        c@ == parse_condition_spec(word@),
{
    let t = trim_chars(word);
    let n = t.len();
    if n > 0 && t[0] == '=' {
        Condition::NumDisplays(parse_count_after_sign(&t, 0xffffffff))
    } else if n > 0 && t[0] == '>' {
        Condition::MoreThanNumDisplays(parse_count_after_sign(&t, 0xffffffff))
    } else if n > 0 && t[0] == '<' {
        Condition::LessThanNumDisplays(parse_count_after_sign(&t, 0))
    } else if chars_eq_str(&t, "+") {
        Condition::AddedDisplay
    } else if chars_eq_str(&t, "-") {
        Condition::RemovedDisplay
    } else if chars_eq_str(&t, "and") {
        Condition::And
    } else if chars_eq_str(&t, "or") {
        Condition::Or
    } else if n > 0 && t[0] == '"' {
        if t[n - 1] == '"' {
            if n == 1 {
                assert(t@ =~= seq!['"']);
            }
            Condition::DisplayName(string_from_chars(&sub_chars(&t, 1, n - 1)))
        } else {
            let inner = sub_chars(&t, 1, n);
            assert(inner@ =~= t@.drop_first());
            Condition::DisplayName(string_from_chars(&inner))
        }
    } else if n > 0 {
        Condition::DisplayName(string_from_chars(&t))
    } else {
        Condition::NoCondition
    }
}

pub open spec fn chars_of_words(ws: Seq<Vec<char>>) -> Seq<Seq<char>> {
    ws.map_values(|w: Vec<char>| w@)
}

/// The words of `s`: runs of characters separated by white space outside quotes.
fn split_words(s: &Vec<char>) -> (ws: Vec<Vec<char>>)
    ensures
        chars_of_words(ws@) == words(s@),
{
    let mut result: Vec<Vec<char>> = Vec::new();
    let mut cur: Vec<char> = Vec::new();
    let mut quoted = false;
    let n = s.len();
    assert(s@.take(0) =~= Seq::<char>::empty());
    assert(chars_of_words(result@) =~= Seq::<Seq<char>>::empty());
    for i in 0..n
        invariant
            n == s@.len(),
            scan(s@.take(i as int)).cur == cur@,
            scan(s@.take(i as int)).quoted == quoted,
            chars_of_words(result@) == scan(s@.take(i as int)).done,
    {
        let c = s[i];
        assert(s@.take(i + 1).drop_last() =~= s@.take(i as int));
        if c == '"' {
            quoted = !quoted;
            cur.push(c);
        } else if is_white_space(c) && !quoted {
            if cur.len() > 0 {
                let ghost before = result@;
                let word = cur;
                result.push(word);
                assert(chars_of_words(result@) =~= chars_of_words(before).push(word@));
                cur = Vec::new();
            }
        } else {
            cur.push(c);
        }
    }
    assert(s@.take(n as int) =~= s@);
    if cur.len() > 0 {
        let ghost before = result@;
        let word = cur;
        result.push(word);
        assert(chars_of_words(result@) =~= chars_of_words(before).push(word@));
    }
    result
}

/// The conditions and operators that `s` lists, one per word.
pub fn split_conditions(s: &Vec<char>) -> (r: Vec<Condition>)
    requires
        no_lone_quote(s@),
    ensures
        views_of(r@) == split_conditions_spec(s@),
{
    let ws = split_words(s);
    let mut result: Vec<Condition> = Vec::new();
    let n = ws.len();
    for i in 0..n
        invariant
            n == ws@.len(),
            no_lone_quote(s@),
            chars_of_words(ws@) == words(s@),
            result@.len() == i,
            forall|k: int| 0 <= k < i ==> #[trigger] result@[k]@ == parse_condition_spec(words(s@)[k]),
    {
        assert(words(s@)[i as int] == ws@[i as int]@);
        let cond = parse_condition(&ws[i]);
        result.push(cond);
    }
    assert(views_of(result@) =~= split_conditions_spec(s@));
    result
}

/// Whether `s` has no lone quote among its words.
fn words_without_lone_quote(s: &Vec<char>) -> (r: bool)
    ensures
        r == no_lone_quote(s@),
{
    let ws = split_words(s);
    let n = ws.len();
    for i in 0..n
        invariant
            n == ws@.len(),
            chars_of_words(ws@) == words(s@),
            forall|k: int| 0 <= k < i ==> !is_lone_quote(#[trigger] words(s@)[k]),
    {
        assert(words(s@)[i as int] == ws@[i as int]@);
        let t = trim_chars(&ws[i]);
        if chars_eq_str(&t, "\"") {
            proof {
                reveal_strlit("\"");
                assert("\""@ =~= seq!['"']);
            }
            return false;
        }
        proof {
            reveal_strlit("\"");
            assert("\""@ =~= seq!['"']);
        }
    }
    true
}

fn is_operator_exec(c: &Condition) -> (r: bool)
    ensures
        r == is_operator(c@),
{
    match c {
        Condition::And | Condition::Or | Condition::Not => true,
        _ => false,
    }
}

pub open spec fn node_views(q: Seq<ConditionNode>) -> Seq<NodeView> {
    q.map_values(|n: ConditionNode| n@)
}

/// The tree `o1 p1 (o2 p2 (... on))` of operands `os` and operators `ps`, one
/// fewer than operands (see [`build_tree`]).
fn fold_tree(os: Vec<Condition>, ps: Vec<Condition>) -> (r: ConditionNode)
    requires
        os@.len() == ps@.len() + 1,
        forall|i: int| 0 <= i < ps@.len() ==> is_operator(#[trigger] views_of(ps@)[i]),
        forall|i: int| 0 <= i < os@.len() ==> !is_operator(#[trigger] views_of(os@)[i]),
    ensures
        r@ == build_tree(views_of(os@), views_of(ps@)),
        evaluable(r@),
{
    let mut os = os;
    let mut ps = ps;
    let k = ps.len();
    let ghost big_o = views_of(os@);
    let ghost full_ps = views_of(ps@);
    proof {
        lemma_build_tree_evaluable(big_o, full_ps);
    }
    let last = os.pop().unwrap();
    assert(views_of(os@) =~= big_o.take(k as int));
    let mut acc = ConditionNode { condition: last, left: Option::None, right: Option::None };
    assert(big_o.subrange(k as int, k + 1) =~= seq![big_o[k as int]]);
    assert(full_ps.subrange(k as int, k as int) =~= Seq::<ConditionView>::empty());
    while ps.len() > 0
        invariant
            os@.len() == ps@.len(),
            ps@.len() <= k,
            big_o.len() == k + 1,
            full_ps.len() == k,
            views_of(os@) == big_o.take(ps@.len() as int),
            views_of(ps@) == full_ps.take(ps@.len() as int),
            acc@ == build_tree(
                big_o.subrange(ps@.len() as int, k + 1),
                full_ps.subrange(ps@.len() as int, k as int),
            ),
        decreases ps@.len(),
    {
        let m = ps.len();
        let ghost before = acc@;
        let ghost old_ps = ps@;
        let ghost old_os = os@;
        assert(views_of(old_ps)[m - 1] == old_ps[m - 1]@);
        assert(views_of(old_os)[m - 1] == old_os[m - 1]@);
        let op = ps.pop().unwrap();
        let o = os.pop().unwrap();
        assert(views_of(os@) =~= big_o.take(m - 1));
        assert(views_of(ps@) =~= full_ps.take(m - 1));
        assert(op@ == full_ps[m - 1]);
        assert(o@ == big_o[m - 1]);
        let ghost op_v = op@;
        let leaf_node = ConditionNode { condition: o, left: Option::None, right: Option::None };
        let ghost leaf_v = leaf_node@;
        assert(leaf_v == leaf(big_o[m - 1]));
        acc = ConditionNode { condition: op, left: Some(Box::new(leaf_node)), right: Some(Box::new(acc)) };
        proof {
            let os2 = big_o.subrange(m - 1, k + 1);
            let ps2 = full_ps.subrange(m - 1, k as int);
            assert(os2.drop_first() =~= big_o.subrange(m as int, k + 1));
            assert(ps2.drop_first() =~= full_ps.subrange(m as int, k as int));
            assert(acc@ == branch(op_v, leaf_v, before));
            assert(acc@ == branch(ps2[0], leaf(os2[0]), before));
        }
    }
    assert(big_o.subrange(0, k + 1) =~= big_o);
    assert(full_ps.subrange(0, k as int) =~= full_ps);
    acc
}

/// The tree of operands `os` and operators `ps`, more than one fewer than
/// operands, by the queue reduction (see [`queue_tree`]).
fn queue_tree_exec(os: Vec<Condition>, ps: Vec<Condition>) -> (r: ConditionNode)
    requires
        ps@.len() + 1 < os@.len(),
        forall|i: int| 0 <= i < os@.len() ==> !is_operator(#[trigger] views_of(os@)[i]),
    ensures
        r@ == queue_tree(views_of(os@), views_of(ps@)),
        evaluable(r@),
{
    let mut os = os;
    let mut ps = ps;
    let n = os.len();
    let k = ps.len();
    let ghost big_o = views_of(os@);
    let ghost full_ps = views_of(ps@);
    let mut q: Vec<ConditionNode> = Vec::new();
    while os.len() > 0
        invariant
            big_o.len() == n,
            os@.len() <= n,
            views_of(os@) == big_o.take(os@.len() as int),
            node_views(q@) =~= Seq::new((n - os@.len()) as nat, |i: int| leaf(big_o[n - 1 - i])),
            forall|i: int| 0 <= i < n ==> !is_operator(#[trigger] big_o[i]),
        decreases os@.len(),
    {
        let m = os.len();
        let ghost old_os = os@;
        let ghost old_q = node_views(q@);
        assert(views_of(old_os)[m - 1] == old_os[m - 1]@);
        let o = os.pop().unwrap();
        assert(views_of(os@) =~= big_o.take(m - 1));
        let leaf_node = ConditionNode { condition: o, left: Option::None, right: Option::None };
        q.push(leaf_node);
        assert(node_views(q@) =~= old_q.push(leaf(big_o[m - 1])));
    }
    let ghost q0 = node_views(q@);
    let ghost rev_ps = reversed_operators(full_ps);
    assert(q0 =~= reversed_leaves(big_o));
    assert(forall|i: int| 0 <= i < q0.len() ==> evaluable(#[trigger] q0[i])) by {
        assert forall|i: int| 0 <= i < q0.len() implies evaluable(#[trigger] q0[i]) by {
            assert(!is_operator(big_o[n - 1 - i]));
        }
    }
    let mut j: usize = 0;
    assert(rev_ps.skip(0) =~= rev_ps);
    while ps.len() > 0
        invariant
            full_ps.len() == k,
            rev_ps == reversed_operators(full_ps),
            k + 1 < n,
            j + ps@.len() == k,
            views_of(ps@) == full_ps.take(ps@.len() as int),
            node_views(q@).len() == n - j,
            queue_reduce(node_views(q@), rev_ps.skip(j as int)) == queue_reduce(q0, rev_ps),
            forall|i: int| 0 <= i < node_views(q@).len() ==> evaluable(#[trigger] node_views(q@)[i]),
        decreases ps@.len(),
    {
        let m = ps.len();
        let ghost old_ps = ps@;
        let ghost qv = node_views(q@);
        assert(views_of(old_ps)[m - 1] == old_ps[m - 1]@);
        let op = ps.pop().unwrap();
        assert(views_of(ps@) =~= full_ps.take(m - 1));
        assert(op@ == rev_ps[j as int]);
        let ghost op_v = op@;
        let right = q.remove(0);
        let left = q.remove(0);
        assert(right@ == qv[0]);
        assert(left@ == qv[1]);
        let ghost rest = node_views(q@);
        assert(rest =~= qv.skip(2));
        q.push(ConditionNode { condition: op, left: Some(Box::new(left)), right: Some(Box::new(right)) });
        proof {
            let nv = branch(op_v, qv[1], qv[0]);
            assert(node_views(q@) =~= qv.skip(2).push(nv));
            let r = rev_ps.skip(j as int);
            assert(r[0] == op_v);
            assert(r.drop_first() =~= rev_ps.skip(j + 1));
            assert(evaluable(qv[0]));
            assert(evaluable(qv[1]));
            assert(evaluable(nv));
            assert forall|i: int| 0 <= i < node_views(q@).len() implies evaluable(
                #[trigger] node_views(q@)[i],
            ) by {
                if i < node_views(q@).len() - 1 {
                    assert(node_views(q@)[i] == qv[i + 2]);
                }
            }
        }
        j = j + 1;
    }
    assert(rev_ps.skip(k as int) =~= Seq::<ConditionView>::empty());
    let ghost fin = node_views(q@);
    let last = q.pop().unwrap();
    assert(last@ == fin[fin.len() - 1]);
    last
}

/// The condition tree of a rule from its conditions and operators in reading
/// order: see [`rule_tree`].
fn build_condition_tree(cs: &Vec<Condition>) -> (r: ConditionNode)
    requires
        operands(views_of(cs@)).len() >= 1,
        operators(views_of(cs@)).len() < operands(views_of(cs@)).len(),
    ensures
        r@ == rule_tree(operands(views_of(cs@)), operators(views_of(cs@))),
        evaluable(r@),
{
    let ghost all = views_of(cs@);
    let mut os: Vec<Condition> = Vec::new();
    let mut ps: Vec<Condition> = Vec::new();
    let n = cs.len();
    for i in 0..n
        invariant
            n == cs@.len(),
            all == views_of(cs@),
            views_of(os@) == operands(all.take(i as int)),
            views_of(ps@) == operators(all.take(i as int)),
    {
        let c = cs[i].clone();
        proof {
            reveal(Seq::filter);
            assert(all.take(i + 1).drop_last() =~= all.take(i as int));
            assert(all.take(i + 1).last() == c@);
        }
        if is_operator_exec(&c) {
            ps.push(c);
            assert(views_of(ps@) =~= operators(all.take(i + 1)));
            assert(views_of(os@) =~= operands(all.take(i + 1)));
        } else {
            os.push(c);
            assert(views_of(ps@) =~= operators(all.take(i + 1)));
            assert(views_of(os@) =~= operands(all.take(i + 1)));
        }
    }
    assert(all.take(n as int) =~= all);
    let ghost full_os = views_of(os@);
    let ghost full_ps = views_of(ps@);
    proof {
        assert forall|i: int| 0 <= i < full_ps.len() implies is_operator(#[trigger] full_ps[i]) by {
            all.lemma_filter_pred(|c: ConditionView| is_operator(c), i);
        }
        assert forall|i: int| 0 <= i < full_os.len() implies !is_operator(#[trigger] full_os[i]) by {
            all.lemma_filter_pred(|c: ConditionView| !is_operator(c), i);
        }
    }
    if ps.len() + 1 == os.len() {
        fold_tree(os, ps)
    } else {
        queue_tree_exec(os, ps)
    }
}

/// Where `s` holds the arrow `->`, when it holds it exactly once.
pub(crate) fn find_single_arrow(s: &Vec<char>) -> (r: Option<usize>)
    ensures
        r is Some <==> has_single_arrow(s@),
        r matches Some(p) ==> single_arrow_at(s@, p as int) && arrow_pos(s@) == p as int,
{
    let n = s.len();
    let mut first: Option<usize> = Option::None;
    let mut multiple = false;
    let mut i: usize = 0;
    while n > 0 && i < n - 1
        invariant
            n == s@.len(),
            first is None ==> forall|j: int| 0 <= j < i ==> !is_arrow_at(s@, j),
            first matches Some(p) ==> {
                &&& p < i
                &&& is_arrow_at(s@, p as int)
                &&& forall|j: int| 0 <= j < p ==> !is_arrow_at(s@, j)
                &&& multiple <==> exists|j: int| p < j < i && #[trigger] is_arrow_at(s@, j)
            },
        decreases n - i,
    {
        if s[i] == '-' && s[i + 1] == '>' {
            assert(is_arrow_at(s@, i as int));
            match first {
                Option::None => {
                    first = Some(i);
                    assert(!exists|j: int| i < j < i + 1 && #[trigger] is_arrow_at(s@, j));
                    multiple = false;
                },
                Some(p) => {
                    multiple = true;
                },
            }
        }
        i = i + 1;
    }
    assert(forall|j: int| j >= i ==> !#[trigger] is_arrow_at(s@, j));
    match first {
        Option::None => {
            assert(!has_single_arrow(s@));
            Option::None
        },
        Some(p) => {
            if multiple {
                proof {
                    let j = choose|j: int| p < j < i && #[trigger] is_arrow_at(s@, j);
                    assert forall|q: int| !single_arrow_at(s@, q) by {
                        if single_arrow_at(s@, q) {
                            assert(is_arrow_at(s@, p as int));
                            assert(is_arrow_at(s@, j));
                        }
                    }
                }
                Option::None
            } else {
                assert(single_arrow_at(s@, p as int));
                assert(arrow_pos(s@) == p as int);
                Some(p)
            }
        },
    }
}

/// Whether `s` trims to a text that starts with `#`.
fn is_comment_chars(s: &Vec<char>) -> (r: bool)
    ensures
        r == is_comment(s@),
{
    let t = trim_chars(s);
    t.len() > 0 && t[0] == '#'
}

/// The number of operators among `cs`, and the number of other conditions.
fn count_operators(cs: &Vec<Condition>) -> (r: (usize, usize))
    ensures
        r.0 == operators(views_of(cs@)).len(),
        r.1 == operands(views_of(cs@)).len(),
{
    let ghost all = views_of(cs@);
    let n = cs.len();
    let mut ops: usize = 0;
    let mut others: usize = 0;
    for i in 0..n
        invariant
            n == cs@.len(),
            all == views_of(cs@),
            ops == operators(all.take(i as int)).len(),
            others == operands(all.take(i as int)).len(),
            ops + others == i,
    {
        proof {
            reveal(Seq::filter);
            assert(all.take(i + 1).drop_last() =~= all.take(i as int));
            assert(all.take(i + 1).last() == cs@[i as int]@);
        }
        if is_operator_exec(&cs[i]) {
            ops = ops + 1;
        } else {
            others = others + 1;
        }
    }
    assert(all.take(n as int) =~= all);
    (ops, others)
}

/// Whether the rule parser has an answer for the rule `s` (see
/// [`rule_in_domain`]).
pub fn rule_in_domain_chars(s: &Vec<char>) -> (r: bool)
    ensures
        r == rule_in_domain(s@),
{
    if is_comment_chars(s) {
        return true;
    }
    match find_single_arrow(s) {
        Option::None => true,
        Some(p) => {
            let left = sub_chars(s, 0, p);
            assert(left@ =~= s@.take(p as int));
            let lhs = trim_chars(&left);
            if !words_without_lone_quote(&lhs) {
                return false;
            }
            let conditions = split_conditions(&lhs);
            let (ops, others) = count_operators(&conditions);
            others >= 1 && ops < others
        },
    }
}

/// Whether the rule parser has an answer for `rule`: `parse_rule` may be
/// called on it.
pub fn rule_is_parsable(rule: &str) -> (r: bool)
    ensures
        r == rule_in_domain(rule@),
{
    rule_in_domain_chars(&chars_of(rule))
}

/// The condition tree and the command of one rule, `<conditions> -> <command>`,
/// from its characters.  A comment (`#` first) gives a `NoCondition` leaf and
/// an empty command.
pub fn parse_rule_chars(s: &Vec<char>) -> (res: Result<(ConditionNode, String), String>)
    requires
        rule_in_domain(s@),
    ensures
        res is Ok <==> parse_rule_spec(s@) is Some,
        res matches Ok((node, cmd)) ==> parse_rule_spec(s@) == Some((node@, cmd@)) && evaluable(node@),
        res matches Err(e) ==> e@ == "invalid rule format"@,
{
    if is_comment_chars(s) {
        let node = ConditionNode { condition: Condition::NoCondition, left: Option::None, right: Option::None };
        return Ok((node, String::new()));
    }
    match find_single_arrow(s) {
        Option::None => Err(String::from_str("invalid rule format")),
        Some(p) => {
            let n = s.len();
            let left = sub_chars(s, 0, p);
            assert(left@ =~= s@.take(p as int));
            let lhs = trim_chars(&left);
            let conditions = split_conditions(&lhs);
            let tree = build_condition_tree(&conditions);
            let right = sub_chars(s, p + 2, n);
            assert(right@ =~= s@.skip(p + 2));
            let cmd = trim_chars(&right);
            Ok((tree, string_from_chars(&cmd)))
        },
    }
}

/// The condition tree and the command of one rule, `<conditions> -> <command>`.
///
/// A rule whose trimmed text starts with `#` is a comment and gives a
/// `NoCondition` leaf with an empty command.  Otherwise the rule must hold the
/// arrow `->` exactly once, else the result is the error `invalid rule format`.
/// The conditions are combined by their operators from left to right: see
/// [`build_tree`].
pub fn parse_rule(rule: String) -> (res: Result<(ConditionNode, String), String>)
    requires
        rule_in_domain(rule@),
    ensures
        res is Ok <==> parse_rule_spec(rule@) is Some,
        res matches Ok((node, cmd)) ==> parse_rule_spec(rule@) == Some((node@, cmd@)) && evaluable(
            node@,
        ),
        res matches Err(e) ==> e@ == "invalid rule format"@,
{
    let chars = chars_of(rule.as_str());
    parse_rule_chars(&chars)
}

/// Whether a display named `name` is among `displays`.
fn display_connected(displays: &Vec<String>, name: &String) -> (r: bool)
    ensures
        r == displays@.map_values(|d: String| d@).contains(name@),
{
    let ghost names = displays@.map_values(|d: String| d@);
    let n = displays.len();
    for i in 0..n
        invariant
            n == displays@.len(),
            names == displays@.map_values(|d: String| d@),
            forall|j: int| 0 <= j < i ==> names[j] != name@,
    {
        if displays[i].eq(name) {
            assert(names[i as int] == name@);
            return true;
        }
    }
    assert forall|j: int| 0 <= j < names.len() implies names[j] != name@ by {}
    false
}

/// Whether the condition tree holds in the display state.  The right operand
/// of `and` and `or` is looked at only when the left one does not decide.
pub fn is_condition_true(node: &ConditionNode, state: &DisplayState) -> (r: bool)
    requires
        can_eval(node@, state@),
    ensures
        r == eval(node@, state@),
    decreases node,
{
    match &node.condition {
        Condition::DisplayName(name) => display_connected(&state.current_displays, name),
        Condition::NumDisplays(n) => state.current_displays.len() == *n,
        Condition::MoreThanNumDisplays(n) => state.current_displays.len() > *n,
        Condition::LessThanNumDisplays(n) => state.current_displays.len() < *n,
        Condition::AddedDisplay => state.added,
        Condition::RemovedDisplay => state.removed,
        Condition::And => match &node.left {
            Some(l) => {
                if is_condition_true(l, state) {
                    match &node.right {
                        Some(r) => is_condition_true(r, state),
                        Option::None => false,
                    }
                } else {
                    false
                }
            },
            Option::None => false,
        },
        Condition::Or => match &node.left {
            Some(l) => {
                if is_condition_true(l, state) {
                    true
                } else {
                    match &node.right {
                        Some(r) => is_condition_true(r, state),
                        Option::None => false,
                    }
                }
            },
            Option::None => false,
        },
        _ => false,
    }
}

/// The lines list the nodes of `o`: same depths, same conditions, same order.
pub open spec fn lists_outline(lines: Seq<(usize, &Condition)>, o: Seq<(nat, Condition)>) -> bool {
    &&& lines.len() == o.len()
    &&& forall|i: int| 0 <= i < o.len() ==> #[trigger] lines[i].0 == o[i].0 && *lines[i].1 == o[i].1
}

proof fn lemma_lists_outline_join(
    a: Seq<(usize, &Condition)>,
    oa: Seq<(nat, Condition)>,
    b: Seq<(usize, &Condition)>,
    ob: Seq<(nat, Condition)>,
)
    requires
        lists_outline(a, oa),
        lists_outline(b, ob),
    ensures
        lists_outline(a + b, oa + ob),
{
    assert forall|i: int| 0 <= i < (oa + ob).len() implies #[trigger] (a + b)[i].0 == (oa + ob)[i].0
        && *(a + b)[i].1 == (oa + ob)[i].1 by {
        if i < oa.len() {
            assert((a + b)[i] == a[i]);
            assert((oa + ob)[i] == oa[i]);
            assert(a[i].0 == oa[i].0);
        } else {
            let k = i - oa.len();
            assert((a + b)[i] == b[k]);
            assert((oa + ob)[i] == ob[k]);
            assert(b[k].0 == ob[k].0);
        }
    }
}

impl ConditionNode {
    /// What the debug log shows of this tree: every node with its depth below
    /// `level`, node first, then its left subtree, then its right subtree.  A
    /// line is printed as four spaces per depth step and the condition.
    pub fn debug_print(&self, level: usize) -> (lines: Vec<(usize, &Condition)>)
        requires
            level + self.height() <= usize::MAX,
        ensures
            lists_outline(lines@, self.outline(level as nat)),
        decreases self,
    {
        let mut lines: Vec<(usize, &Condition)> = Vec::new();
        lines.push((level, &self.condition));
        let ghost head = lines@;
        let ghost mut left_lines: Seq<(usize, &Condition)> = Seq::empty();
        let ghost mut right_lines: Seq<(usize, &Condition)> = Seq::empty();
        let ghost below_left = match &self.left {
            Some(l) => l.outline(level as nat + 1),
            Option::None => Seq::empty(),
        };
        let ghost below_right = match &self.right {
            Some(r) => r.outline(level as nat + 1),
            Option::None => Seq::empty(),
        };
        if let Some(left) = &self.left {
            let mut sub = left.debug_print(level + 1);
            proof {
                left_lines = sub@;
            }
            lines.append(&mut sub);
        }
        if let Some(right) = &self.right {
            let mut sub = right.debug_print(level + 1);
            proof {
                right_lines = sub@;
            }
            lines.append(&mut sub);
        }
        proof {
            lemma_lists_outline_join(head, seq![(level as nat, self.condition)], left_lines, below_left);
            lemma_lists_outline_join(
                head + left_lines,
                seq![(level as nat, self.condition)] + below_left,
                right_lines,
                below_right,
            );
            assert(lines@ =~= head + left_lines + right_lines);
            assert(self.outline(level as nat) =~= seq![(level as nat, self.condition)] + below_left
                + below_right);
        }
        lines
    }
}

/// The conditions `os`, joined from left to right by the operators `ps`, hold
/// in a display state exactly when the tree that a rule is parsed into holds
/// there: `o1 p1 o2 p2 o3 ...` is `o1 p1 (o2 p2 (o3 ...))`, read from the left.
pub proof fn lemma_tree_holds_in_order(os: Seq<ConditionView>, ps: Seq<ConditionView>, st: DisplayStateView)
    requires
        ps.len() < os.len(),
        forall|i: int| 0 <= i < ps.len() ==> (#[trigger] ps[i] is And || ps[i] is Or),
    ensures
        eval(build_tree(os, ps), st) == holds_in_order(os, ps, st),
    decreases ps.len(),
{
    if ps.len() > 0 {
        assert forall|i: int| 0 <= i < ps.drop_first().len() implies (#[trigger] ps.drop_first()[i] is And
            || ps.drop_first()[i] is Or) by {
            assert(ps.drop_first()[i] == ps[i + 1]);
        }
        assert(ps[0] is And || ps[0] is Or);
        lemma_tree_holds_in_order(os.drop_first(), ps.drop_first(), st);
    }
}

/// The operators that a list without `Not` holds are `and` and `or`.
proof fn lemma_operators_and_or(cs: Seq<ConditionView>)
    requires
        forall|i: int| 0 <= i < cs.len() ==> !(#[trigger] cs[i] is Not),
    ensures
        forall|i: int| 0 <= i < operators(cs).len() ==> (#[trigger] operators(cs)[i] is And
            || operators(cs)[i] is Or),
    decreases cs.len(),
{
    reveal(Seq::filter);
    if cs.len() > 0 {
        let init = cs.drop_last();
        assert forall|i: int| 0 <= i < init.len() implies !(#[trigger] init[i] is Not) by {
            assert(init[i] == cs[i]);
        }
        lemma_operators_and_or(init);
        assert(!(cs[cs.len() - 1] is Not));
        assert forall|i: int| 0 <= i < operators(cs).len() implies (#[trigger] operators(cs)[i] is And
            || operators(cs)[i] is Or) by {
            if i < operators(init).len() {
                assert(operators(cs)[i] == operators(init)[i]);
            }
        }
    }
}

/// A rule's conditions and operators are read from left to right: the parsed
/// tree holds exactly when `o1 p1 (o2 p2 (... o(k+1)))` holds, where the `o`
/// are the rule's conditions and the `p` its `and` and `or` operators, in the
/// order they are written, for every rule with one operator fewer than
/// conditions.
pub proof fn lemma_rule_evaluates_in_order(s: Seq<char>, st: DisplayStateView)
    requires
        !is_comment(s),
        has_single_arrow(s),
        rule_in_domain(s),
        operators(rule_conditions(s)).len() + 1 == operands(rule_conditions(s)).len(),
    ensures
        parse_rule_spec(s) matches Some((node, _)) && eval(node, st) == holds_in_order(
            operands(rule_conditions(s)),
            operators(rule_conditions(s)),
            st,
        ),
{
    let cs = rule_conditions(s);
    assert forall|i: int| 0 <= i < cs.len() implies !(#[trigger] cs[i] is Not) by {}
    lemma_operators_and_or(cs);
    lemma_tree_holds_in_order(operands(cs), operators(cs), st);
}

/// The number of double quotes in `s`.
pub open spec fn quote_count(s: Seq<char>) -> nat
    decreases s.len(),
{
    if s.len() == 0 {
        0
    } else {
        quote_count(s.drop_last()) + if s.last() == '"' {
            1nat
        } else {
            0nat
        }
    }
}

/// After `s`, a quote is open exactly when `s` holds an odd number of quotes.
proof fn lemma_scan_quoted(s: Seq<char>)
    ensures
        scan(s).quoted == (quote_count(s) % 2 == 1),
    decreases s.len(),
{
    if s.len() > 0 {
        lemma_scan_quoted(s.drop_last());
    }
}

/// From a state with no word begun and no quote open, the splitter goes on
/// through `y` as it would from the start, after the words it has.
proof fn lemma_scan_append(x: Seq<char>, y: Seq<char>)
    requires
        scan(x).cur.len() == 0,
        !scan(x).quoted,
    ensures
        scan(x + y).done == scan(x).done + scan(y).done,
        scan(x + y).cur == scan(y).cur,
        scan(x + y).quoted == scan(y).quoted,
    decreases y.len(),
{
    if y.len() == 0 {
        assert(x + y =~= x);
        assert(scan(x).done + scan(y).done =~= scan(x).done);
    } else {
        assert((x + y).drop_last() =~= x + y.drop_last());
        assert((x + y).last() == y.last());
        lemma_scan_append(x, y.drop_last());
        let before = scan(y.drop_last());
        assert(scan(x).done + before.done.push(before.cur) =~= (scan(x).done + before.done).push(
            before.cur,
        ));
    }
}

/// Unicode's `White_Space` characters, listed by code point: the characters
/// that `char::is_whitespace` accepts.
pub open spec fn unicode_white_space(c: char) -> bool {
    let u = c as u32;
    u == 0x09 || u == 0x0a || u == 0x0b || u == 0x0c || u == 0x0d || u == 0x20 || u == 0x85 || u
        == 0xa0 || u == 0x1680 || u == 0x2000 || u == 0x2001 || u == 0x2002 || u == 0x2003 || u
        == 0x2004 || u == 0x2005 || u == 0x2006 || u == 0x2007 || u == 0x2008 || u == 0x2009 || u
        == 0x200a || u == 0x2028 || u == 0x2029 || u == 0x202f || u == 0x205f || u == 0x3000
}

/// Words do not run across white space outside quotes: when `a` holds an even
/// number of quotes and `c` is any Unicode white space character (tab, line
/// feed, space, no-break space, ...), the words of `a`, `c` and `b` are the
/// words of `a` followed by those of `b`, and so are the conditions they list;
/// and `c` before `b` makes no difference to its trimmed text.
pub proof fn lemma_white_space_separates(a: Seq<char>, c: char, b: Seq<char>)
    requires
        quote_count(a) % 2 == 0,
        unicode_white_space(c),
    ensures
        words(a + seq![c] + b) == words(a) + words(b),
        split_conditions_spec(a + seq![c] + b) == split_conditions_spec(a) + split_conditions_spec(b),
        trim(seq![c] + b) == trim(b),
{
    let a1 = a + seq![c];
    lemma_scan_quoted(a);
    assert(a1.drop_last() =~= a);
    assert(a1.last() == c);
    assert(is_white_space_spec(c));
    assert(c != '"');
    assert(scan(a1).done == words(a));
    assert(scan(a1).cur.len() == 0);
    lemma_scan_append(a1, b);
    assert(a + seq![c] + b =~= a1 + b);
    let wb = scan(b);
    if wb.cur.len() > 0 {
        assert(words(a) + wb.done.push(wb.cur) =~= (words(a) + wb.done).push(wb.cur));
    }
    assert(words(a + seq![c] + b) =~= words(a) + words(b));
    assert(split_conditions_spec(a + seq![c] + b) =~= split_conditions_spec(a) + split_conditions_spec(b));
    assert((seq![c] + b).drop_first() =~= b);
    assert(crate::text::trim_start(seq![c] + b) == crate::text::trim_start(b));
}

/// Words do not run across a space outside quotes: when `a` holds an even
/// number of quotes, the words of `a`, a space and `b` are the words of `a`
/// followed by those of `b`, and so are the conditions they list.
pub proof fn lemma_words_join(a: Seq<char>, b: Seq<char>)
    requires
        quote_count(a) % 2 == 0,
    ensures
        words(a + seq![' '] + b) == words(a) + words(b),
        split_conditions_spec(a + seq![' '] + b) == split_conditions_spec(a) + split_conditions_spec(b),
{
    lemma_white_space_separates(a, ' ', b);
}

/// `l -> r`, with no other arrow in `l` or `r`, is read as a rule whose
/// command is `r` with only its surrounding white space taken off: every inner
/// character of `r`, quotes included, is kept.
pub proof fn lemma_rule_command_is_text_after_arrow(l: Seq<char>, r: Seq<char>)
    requires
        forall|j: int| !is_arrow_at(l, j),
        forall|j: int| !is_arrow_at(r, j),
        !is_comment(l + seq!['-', '>'] + r),
    ensures
        parse_rule_spec(l + seq!['-', '>'] + r) matches Some((_, cmd)) && cmd == trim(r),
        (r.len() > 0 && !unicode_white_space(r[0]) && !unicode_white_space(r.last())) ==> (
        parse_rule_spec(l + seq!['-', '>'] + r) matches Some((_, cmd)) && cmd == r),
{
    let s = l + seq!['-', '>'] + r;
    let p = l.len() as int;
    assert(is_arrow_at(s, p));
    assert forall|j: int| #[trigger] is_arrow_at(s, j) implies j == p by {
        if j + 1 < p {
            assert(s[j] == l[j] && s[j + 1] == l[j + 1]);
            assert(is_arrow_at(l, j));
        } else if j == p - 1 {
            assert(s[j + 1] == '-');
        } else if j == p + 1 {
            assert(s[j] == '>');
        } else if j >= p + 2 {
            assert(s[j] == r[j - p - 2] && s[j + 1] == r[j - p - 1]);
            assert(is_arrow_at(r, j - p - 2));
        }
    }
    assert(single_arrow_at(s, p));
    assert(arrow_pos(s) == p);
    assert(s.skip(p + 2) =~= r);
    if r.len() > 0 && !unicode_white_space(r[0]) && !unicode_white_space(r.last()) {
        assert(crate::text::trim_start(r) == r);
        assert(crate::text::trim_end(r) == r);
    }
}

/// A count condition counts every connected display, also one whose name is
/// already connected: one more display raises the count by one.
pub proof fn lemma_count_conditions_count_every_display(st: DisplayStateView, x: Seq<char>, k: usize)
    requires
        k < usize::MAX,
    ensures
        ({
            let more = DisplayStateView { displays: st.displays.push(x), added: st.added, removed: st.removed };
            &&& eval(leaf(ConditionView::NumDisplays((k + 1) as usize)), more) == eval(
                leaf(ConditionView::NumDisplays(k)),
                st,
            )
            &&& !eval(leaf(ConditionView::NumDisplays(0)), more)
            &&& eval(leaf(ConditionView::MoreThanNumDisplays((k + 1) as usize)), more) == eval(
                leaf(ConditionView::MoreThanNumDisplays(k)),
                st,
            )
            &&& eval(leaf(ConditionView::LessThanNumDisplays((k + 1) as usize)), more) == eval(
                leaf(ConditionView::LessThanNumDisplays(k)),
                st,
            )
        }),
        ({
            let none = DisplayStateView { displays: Seq::empty(), added: st.added, removed: st.removed };
            &&& eval(leaf(ConditionView::NumDisplays(0)), none)
            &&& !eval(leaf(ConditionView::MoreThanNumDisplays(0)), none)
            &&& eval(leaf(ConditionView::LessThanNumDisplays(1)), none)
        }),
{
}

} // verus!
