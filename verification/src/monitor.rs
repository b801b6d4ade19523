//! One look at the connected displays: what changed since the last look,
//! whether the rules are due, and which commands their conditions select.
use vstd::prelude::*;

use crate::conditions::{can_eval, eval, is_condition_true, DisplayState, DisplayStateView, NodeView};
use crate::config::{opt_view, AppConfig};

verus! {

pub open spec fn display_names(v: Seq<String>) -> Seq<Seq<char>> {
    v.map_values(|d: String| d@)
}

/// Some name of `now` is not among `before`.
pub open spec fn gained(before: Seq<Seq<char>>, now: Seq<Seq<char>>) -> bool {
    exists|i: int| 0 <= i < now.len() && !before.contains(#[trigger] now[i])
}

/// Whether `name` is among `names`.
fn contains_name(names: &Vec<String>, name: &String) -> (r: bool)
    ensures
        r == display_names(names@).contains(name@),
{
    let ghost ns = display_names(names@);
    let n = names.len();
    for i in 0..n
        invariant
            n == names@.len(),
            ns == display_names(names@),
            forall|j: int| 0 <= j < i ==> ns[j] != name@,
    {
        if names[i].eq(name) {
            assert(ns[i as int] == name@);
            return true;
        }
    }
    false
}

/// Some display of `now` is not among `before`.
fn any_new(before: &Vec<String>, now: &Vec<String>) -> (r: bool)
    ensures
        r == gained(display_names(before@), display_names(now@)),
{
    let ghost b = display_names(before@);
    let ghost w = display_names(now@);
    let n = now.len();
    for i in 0..n
        invariant
            n == now@.len(),
            b == display_names(before@),
            w == display_names(now@),
            forall|j: int| 0 <= j < i ==> b.contains(#[trigger] w[j]),
    {
        if !contains_name(before, &now[i]) {
            assert(!b.contains(w[i as int]));
            return true;
        }
    }
    false
}

/// The display state after a look: the displays connected now, whether one
/// of them was not connected at the previous look (added) and whether one
/// connected at the previous look is gone (removed).  Names are compared as
/// text.
pub fn display_state_from(previous: &Vec<String>, current: Vec<String>) -> (st: DisplayState)
    ensures
        st.current_displays@ == current@,
        st.added == gained(display_names(previous@), display_names(current@)),
        st.removed == gained(display_names(current@), display_names(previous@)),
{
    let added = any_new(previous, &current);
    let removed = any_new(&current, previous);
    DisplayState { current_displays: current, added, removed }
}

/// The rules are looked at on the first look and whenever a display was added
/// or removed, so that a command is not run again and again while nothing
/// changes.
pub fn rules_due(state: &DisplayState, first_iteration: bool) -> (due: bool)
    ensures
        due == (state.added || state.removed || first_iteration),
{
    state.added || state.removed || first_iteration
}

/// The commands of the rules whose conditions hold in `st`, in the order of the
/// rules.
pub open spec fn selected_commands(rules: Seq<(NodeView, Seq<char>)>, st: DisplayStateView) -> Seq<
    Seq<char>,
>
    decreases rules.len(),
{
    if rules.len() == 0 {
        Seq::empty()
    } else {
        let before = selected_commands(rules.drop_last(), st);
        if eval(rules.last().0, st) {
            before.push(rules.last().1)
        } else {
            before
        }
    }
}

/// Every rule's condition can be evaluated in `st`.
pub open spec fn rules_can_eval(rules: Seq<(NodeView, Seq<char>)>, st: DisplayStateView) -> bool {
    forall|i: int| 0 <= i < rules.len() ==> can_eval(#[trigger] rules[i].0, st)
}

/// The commands to run in the display state `state`: those of the rules whose
/// conditions hold, in the order of the rules.
pub fn commands_to_run(config: &AppConfig, state: &DisplayState) -> (cmds: Vec<String>)
    requires
        rules_can_eval(config@.rules, state@),
    ensures
        display_names(cmds@) == selected_commands(config@.rules, state@),
{
    let mut cmds: Vec<String> = Vec::new();
    let n = config.rules.len();
    let ghost rules = config@.rules;
    for i in 0..n
        invariant
            n == config.rules@.len(),
            rules == config@.rules,
            rules_can_eval(config@.rules, state@),
            display_names(cmds@) == selected_commands(rules.take(i as int), state@),
    {
        let rule = &config.rules[i];
        assert(rules[i as int] == (rule.0@, rule.1@));
        assert(rules.take(i + 1).drop_last() =~= rules.take(i as int));
        assert(can_eval(rules[i as int].0, state@));
        if is_condition_true(&rule.0, state) {
            let cmd = rule.1.clone();
            let ghost before = cmds@;
            cmds.push(cmd);
            assert(display_names(cmds@) =~= display_names(before).push(rule.1@));
        }
    }
    assert(rules.take(n as int) =~= rules);
    cmds
}

/// When the same displays are connected as at the previous look, none was
/// added or removed, and the rules are only due on the first look.
pub proof fn lemma_unchanged_displays_no_rules(previous: Seq<Seq<char>>, current: Seq<Seq<char>>, first: bool)
    requires
        previous.to_set() == current.to_set(),
    ensures
        !gained(previous, current),
        !gained(current, previous),
        (gained(previous, current) || gained(current, previous) || first) == first,
{
    assert forall|i: int| 0 <= i < current.len() implies previous.contains(#[trigger] current[i]) by {
        assert(current.to_set().contains(current[i]));
    }
    assert forall|i: int| 0 <= i < previous.len() implies current.contains(#[trigger] previous[i]) by {
        assert(previous.to_set().contains(previous[i]));
    }
}

/// The shell that runs rule commands: `$SHELL` when it is set, else `/bin/zsh`.
pub fn command_shell(shell_env: Option<&str>) -> (shell: String)
    ensures
        shell@ == match opt_view(shell_env) {
            Some(s) => s,
            None => "/bin/zsh"@,
        },
{
    match shell_env {
        Some(s) => String::from_str(s),
        None => String::from_str("/bin/zsh"),
    }
}

/// The display state after a look that finds `current` where the previous
/// look found `previous`.
pub open spec fn state_after(previous: Seq<String>, current: Seq<String>) -> DisplayStateView {
    DisplayStateView {
        displays: display_names(current),
        added: gained(display_names(previous), display_names(current)),
        removed: gained(display_names(current), display_names(previous)),
    }
}

/// What the program keeps from one look at the displays to the next.
pub struct LookState {
    pub previous_displays: Vec<String>,
    pub first_look: bool,
}

impl LookState {
    /// The state before the first look, with the displays found at start.
    pub fn new(initial_displays: Vec<String>) -> (s: Self)
        ensures
            s.previous_displays@ == initial_displays@,
            s.first_look,
    {
        LookState { previous_displays: initial_displays, first_look: true }
    }

    /// One look that finds the displays `current`: the commands to run (those
    /// of the rules that hold, when the look is the first or a display was
    /// added or removed, else none), after which `current` is remembered and
    /// the next look is not the first.
    pub fn look(&mut self, current: Vec<String>, config: &AppConfig) -> (cmds: Vec<String>)
        requires
            rules_can_eval(config@.rules, state_after(old(self).previous_displays@, current@)),
        ensures
            final(self).previous_displays@ == current@,
            !final(self).first_look,
            display_names(cmds@) == (if state_after(old(self).previous_displays@, current@).added
                || state_after(old(self).previous_displays@, current@).removed
                || old(self).first_look {
                selected_commands(config@.rules, state_after(old(self).previous_displays@, current@))
            } else {
                Seq::empty()
            }),
    {
        let st = display_state_from(&self.previous_displays, current);
        assert(st@ == state_after(old(self).previous_displays@, current@));
        let cmds = if rules_due(&st, self.first_look) {
            commands_to_run(config, &st)
        } else {
            let empty: Vec<String> = Vec::new();
            assert(display_names(empty@) =~= Seq::<Seq<char>>::empty());
            empty
        };
        self.previous_displays = st.current_displays;
        self.first_look = false;
        cmds
    }
}

/// A display counts as added exactly when some name connected now, wherever it
/// stands in the list, was not connected before; in particular a new name at
/// the end of any list is an added display.
pub proof fn lemma_gained_is_a_new_name(before: Seq<Seq<char>>, now: Seq<Seq<char>>, x: Seq<char>)
    ensures
        gained(before, now) <==> exists|y: Seq<char>| now.contains(y) && !before.contains(y),
        !before.contains(x) ==> gained(before, now.push(x)),
        before.contains(x) ==> (gained(before, now.push(x)) == gained(before, now)),
{
    if gained(before, now) {
        let i = choose|i: int| 0 <= i < now.len() && !before.contains(#[trigger] now[i]);
        assert(now.contains(now[i]));
    }
    if exists|y: Seq<char>| now.contains(y) && !before.contains(y) {
        let y = choose|y: Seq<char>| now.contains(y) && !before.contains(y);
        let i = choose|i: int| 0 <= i < now.len() && now[i] == y;
        assert(!before.contains(now[i]));
    }
    let np = now.push(x);
    if !before.contains(x) {
        assert(np[now.len() as int] == x);
        assert(!before.contains(np[now.len() as int]));
    }
    if before.contains(x) {
        if gained(before, np) {
            let i = choose|i: int| 0 <= i < np.len() && !before.contains(#[trigger] np[i]);
            assert(i < now.len());
            assert(np[i] == now[i]);
            assert(!before.contains(now[i]));
        }
        if gained(before, now) {
            let i = choose|i: int| 0 <= i < now.len() && !before.contains(#[trigger] now[i]);
            assert(np[i] == now[i]);
            assert(!before.contains(np[i]));
        }
    }
}

} // verus!
