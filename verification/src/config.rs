//! The `ergorc` configuration: where it lives, what a fresh one holds, and how
//! its lines (option keywords and rules) are read.
use vstd::prelude::*;

use crate::conditions::{
    evaluable, find_single_arrow, has_single_arrow, is_arrow_at, is_comment, parse_rule_chars, parse_rule_spec, rule_in_domain,
    ConditionNode, NodeView, rule_in_domain_chars,
};
use crate::text::{
    chars_eq_str, chars_of, lemma_split_lines_join, lemma_split_lines_single, split_lines, trim, trim_chars,
    trim_end, trim_start,
};

verus! {

/// Whether the program keeps itself installed as a LaunchAgent.
#[derive(Debug, Clone, Copy, PartialEq, Eq, Structural)]
pub enum ServiceMode {
    YesService,
    NoService,
}

/// What a configuration file asks for.
#[derive(Debug)]
pub struct AppConfig {
    pub verbose: bool,
    pub firstrun: bool,
    pub service_mode: Option<ServiceMode>,
    pub rules: Vec<(ConditionNode, String)>,
}

pub struct ConfigView {
    pub verbose: bool,
    pub firstrun: bool,
    pub service_mode: Option<ServiceMode>,
    pub rules: Seq<(NodeView, Seq<char>)>,
}

impl View for AppConfig {
    type V = ConfigView;

    open spec fn view(&self) -> ConfigView {
        ConfigView {
            verbose: self.verbose,
            firstrun: self.firstrun,
            service_mode: self.service_mode,
            rules: self.rules@.map_values(|r: (ConditionNode, String)| (r.0@, r.1@)),
        }
    }
}

/// The configuration of an empty file.
pub open spec fn empty_config() -> ConfigView {
    ConfigView { verbose: false, firstrun: false, service_mode: None, rules: Seq::empty() }
}

/// The effect of one line of the file: blank lines and `#` comments change
/// nothing, the keywords `verbose`, `firstrun`, `yesservice` and `noservice`
/// set their option, and any other line is read as a rule, kept when it parses
/// and has a command.
pub open spec fn config_step(c: ConfigView, line: Seq<char>) -> ConfigView {
    let t = trim(line);
    if t.len() == 0 || t[0] == '#' {
        c
    } else if t == "verbose"@ {
        ConfigView { verbose: true, ..c }
    } else if t == "firstrun"@ {
        ConfigView { firstrun: true, ..c }
    } else if t == "yesservice"@ {
        ConfigView { service_mode: Some(ServiceMode::YesService), ..c }
    } else if t == "noservice"@ {
        ConfigView { service_mode: Some(ServiceMode::NoService), ..c }
    } else {
        match parse_rule_spec(t) {
            Some((node, cmd)) => if cmd.len() > 0 {
                ConfigView { rules: c.rules.push((node, cmd)), ..c }
            } else {
                c
            },
            None => c,
        }
    }
}

/// The configuration that the lines give, read from first to last.
pub open spec fn config_of_lines(lines: Seq<Seq<char>>) -> ConfigView
    decreases lines.len(),
{
    if lines.len() == 0 {
        empty_config()
    } else {
        config_step(config_of_lines(lines.drop_last()), lines.last())
    }
}

/// The configuration that a file's text gives.
pub open spec fn parse_config_spec(raw: Seq<char>) -> ConfigView {
    config_of_lines(split_lines(raw))
}

/// Every line of the text is one on which the rule parser has an answer.
pub open spec fn config_in_domain(raw: Seq<char>) -> bool {
    forall|i: int|
        0 <= i < split_lines(raw).len() ==> rule_in_domain(trim(#[trigger] split_lines(raw)[i]))
}

/// Every rule's condition tree can be evaluated.
pub open spec fn rules_evaluable(c: ConfigView) -> bool {
    forall|i: int| 0 <= i < c.rules.len() ==> evaluable(#[trigger] c.rules[i].0)
}

/// The lines that are finished after `i` characters are the first lines of `s`.
proof fn lemma_split_lines_prefix(s: Seq<char>, i: int)
    requires
        0 <= i <= s.len(),
    ensures
        split_lines(s.take(i)).len() <= split_lines(s).len(),
        forall|k: int|
            0 <= k < split_lines(s.take(i)).len() - 1 ==> split_lines(s.take(i))[k] == split_lines(
                s,
            )[k],
    decreases s.len() - i,
{
    crate::text::lemma_split_lines_nonempty(s.take(i));
    if i == s.len() {
        assert(s.take(i) =~= s);
    } else {
        lemma_split_lines_prefix(s, i + 1);
        assert(s.take(i + 1).drop_last() =~= s.take(i));
    }
}

/// Applies one line of a configuration file to `config`.
fn apply_config_line(config: &mut AppConfig, line: &Vec<char>)
    requires
        rule_in_domain(trim(line@)),
        rules_evaluable(old(config)@),
    ensures
        final(config)@ == config_step(old(config)@, line@),
        rules_evaluable(final(config)@),
{
    let t = trim_chars(line);
    if t.len() == 0 || t[0] == '#' {
        return ;
    }
    if chars_eq_str(&t, "verbose") {
        config.verbose = true;
        return ;
    }
    if chars_eq_str(&t, "firstrun") {
        config.firstrun = true;
        return ;
    }
    if chars_eq_str(&t, "yesservice") {
        config.service_mode = Some(ServiceMode::YesService);
        return ;
    }
    if chars_eq_str(&t, "noservice") {
        config.service_mode = Some(ServiceMode::NoService);
        return ;
    }
    match parse_rule_chars(&t) {
        Ok((node, cmd)) => {
            if !cmd.as_str().is_empty() {
                let ghost old_rules = config.rules@;
                let ghost entry = (node@, cmd@);
                config.rules.push((node, cmd));
                assert(config@.rules =~= old(config)@.rules.push(entry));
            }
        },
        Err(_) => {},
    }
}

/// Reads a configuration file's text: its lines, one by one, from the first to
/// the last (see [`config_step`]).
pub fn parse_config(raw: &str) -> (config: AppConfig)
    requires
        config_in_domain(raw@),
    ensures
        config@ == parse_config_spec(raw@),
        rules_evaluable(config@),
{
    let mut config = AppConfig { verbose: false, firstrun: false, service_mode: None, rules: Vec::new() };
    assert(config@.rules =~= Seq::<(NodeView, Seq<char>)>::empty());
    let chars = chars_of(raw);
    let n = chars.len();
    let mut line: Vec<char> = Vec::new();
    assert(chars@.take(0) =~= Seq::<char>::empty());
    assert(split_lines(chars@.take(0)).drop_last() =~= Seq::<Seq<char>>::empty());
    for i in 0..n
        invariant
            n == chars@.len(),
            chars@ == raw@,
            config_in_domain(raw@),
            split_lines(chars@.take(i as int)).len() >= 1,
            config@ == config_of_lines(split_lines(chars@.take(i as int)).drop_last()),
            line@ == split_lines(chars@.take(i as int)).last(),
            rules_evaluable(config@),
    {
        let c = chars[i];
        let ghost before = split_lines(chars@.take(i as int));
        proof {
            assert(chars@.take(i + 1).drop_last() =~= chars@.take(i as int));
            lemma_split_lines_prefix(chars@, i + 1);
        }
        if c == '\n' {
            proof {
                let after = split_lines(chars@.take(i + 1));
                assert(after =~= before.push(Seq::empty()));
                let k = before.len() - 1;
                assert(after[k] == line@);
                assert(split_lines(raw@)[k] == line@);
                assert(after.drop_last().drop_last() =~= before.drop_last());
            }
            apply_config_line(&mut config, &line);
            line = Vec::new();
        } else {
            line.push(c);
            proof {
                let after = split_lines(chars@.take(i + 1));
                assert(after.drop_last() =~= before.drop_last());
            }
        }
    }
    assert(chars@.take(n as int) =~= chars@);
    proof {
        let all = split_lines(raw@);
        assert(all[all.len() - 1] == line@);
    }
    apply_config_line(&mut config, &line);
    config
}

/// Whether every line of `raw` is one on which the rule parser has an answer:
/// `parse_config` may be called on it.
pub fn config_is_parsable(raw: &str) -> (r: bool)
    ensures
        r == config_in_domain(raw@),
{
    let chars = chars_of(raw);
    let n = chars.len();
    let mut line: Vec<char> = Vec::new();
    let ghost all = split_lines(raw@);
    assert(chars@.take(0) =~= Seq::<char>::empty());
    proof {
        crate::text::lemma_split_lines_nonempty(raw@);
    }
    for i in 0..n
        invariant
            n == chars@.len(),
            chars@ == raw@,
            all == split_lines(raw@),
            split_lines(chars@.take(i as int)).len() >= 1,
            split_lines(chars@.take(i as int)).len() <= all.len(),
            forall|k: int|
                0 <= k < split_lines(chars@.take(i as int)).len() - 1 ==> rule_in_domain(
                    trim(#[trigger] all[k]),
                ),
            line@ == split_lines(chars@.take(i as int)).last(),
    {
        let c = chars[i];
        let ghost before = split_lines(chars@.take(i as int));
        proof {
            assert(chars@.take(i + 1).drop_last() =~= chars@.take(i as int));
            lemma_split_lines_prefix(chars@, i + 1);
        }
        if c == '\n' {
            let ghost prev_line = line@;
            let t = trim_chars(&line);
            let ok = rule_in_domain_chars(&t);
            proof {
                let after = split_lines(chars@.take(i + 1));
                assert(after =~= before.push(Seq::empty()));
                let k = before.len() - 1;
                assert(after[k] == line@);
                assert(all[k] == line@);
            }
            if !ok {
                return false;
            }
            line = Vec::new();
        } else {
            line.push(c);
            proof {
                let after = split_lines(chars@.take(i + 1));
                assert(chars@.take(i + 1).last() == c);
                assert(after =~= before.update(before.len() - 1, before.last().push(c)));
            }
        }
    }
    assert(chars@.take(n as int) =~= chars@);
    let t = trim_chars(&line);
    let ok = rule_in_domain_chars(&t);
    proof {
        assert(all[all.len() - 1] == line@);
        if ok {
            assert forall|k: int| 0 <= k < all.len() implies rule_in_domain(trim(#[trigger] all[k])) by {
                if k == all.len() - 1 {
                    assert(all[k] == line@);
                }
            }
        }
    }
    ok
}

/// The line is read as a rule (it is neither blank, nor a comment, nor an
/// option keyword) and the rule parser refuses it.
pub open spec fn is_rejected_rule(t: Seq<char>) -> bool {
    &&& t.len() > 0
    &&& t[0] != '#'
    &&& t != "verbose"@
    &&& t != "firstrun"@
    &&& t != "yesservice"@
    &&& t != "noservice"@
    &&& parse_rule_spec(t) is None
}

/// The trimmed lines that are read as rules and refused, in order.
pub open spec fn rejected_rules_of_lines(lines: Seq<Seq<char>>) -> Seq<Seq<char>>
    decreases lines.len(),
{
    if lines.len() == 0 {
        Seq::empty()
    } else {
        let before = rejected_rules_of_lines(lines.drop_last());
        let t = trim(lines.last());
        if is_rejected_rule(t) {
            before.push(t)
        } else {
            before
        }
    }
}

/// The trimmed line, when it is read as a rule and refused.
fn rejected_rule(line: &Vec<char>) -> (r: Option<String>)
    ensures
        is_rejected_rule(trim(line@)) <==> r is Some,
        r matches Some(t) ==> t@ == trim(line@),
{
    let t = trim_chars(line);
    if t.len() == 0 || t[0] == '#' || chars_eq_str(&t, "verbose") || chars_eq_str(&t, "firstrun")
        || chars_eq_str(&t, "yesservice") || chars_eq_str(&t, "noservice") {
        return Option::None;
    }
    proof {
        crate::text::lemma_trim_idempotent(line@);
    }
    match find_single_arrow(&t) {
        Some(_) => Option::None,
        Option::None => Some(crate::text::string_from_chars(&t)),
    }
}

/// The lines of a configuration text that are read as rules and refused by the
/// rule parser (trimmed, in order): `parse_config` skips them.
pub fn rejected_rules(raw: &str) -> (lines: Vec<String>)
    ensures
        lines@.map_values(|l: String| l@) == rejected_rules_of_lines(split_lines(raw@)),
{
    let chars = chars_of(raw);
    let n = chars.len();
    let mut line: Vec<char> = Vec::new();
    let mut out: Vec<String> = Vec::new();
    assert(chars@.take(0) =~= Seq::<char>::empty());
    assert(split_lines(chars@.take(0)).drop_last() =~= Seq::<Seq<char>>::empty());
    assert(out@.map_values(|l: String| l@) =~= Seq::<Seq<char>>::empty());
    for i in 0..n
        invariant
            n == chars@.len(),
            chars@ == raw@,
            split_lines(chars@.take(i as int)).len() >= 1,
            out@.map_values(|l: String| l@) == rejected_rules_of_lines(
                split_lines(chars@.take(i as int)).drop_last(),
            ),
            line@ == split_lines(chars@.take(i as int)).last(),
    {
        let c = chars[i];
        let ghost before = split_lines(chars@.take(i as int));
        proof {
            assert(chars@.take(i + 1).drop_last() =~= chars@.take(i as int));
            crate::text::lemma_split_lines_nonempty(chars@.take(i + 1));
        }
        if c == '\n' {
            let ghost prev_out = out@;
            match rejected_rule(&line) {
                Some(t) => {
                    out.push(t);
                },
                Option::None => {},
            }
            proof {
                let after = split_lines(chars@.take(i + 1));
                assert(after =~= before.push(Seq::empty()));
                assert(after.drop_last().drop_last() =~= before.drop_last());
                assert(after.drop_last().last() == line@);
                assert(out@.map_values(|l: String| l@) =~= rejected_rules_of_lines(after.drop_last()));
            }
            line = Vec::new();
        } else {
            line.push(c);
            proof {
                let after = split_lines(chars@.take(i + 1));
                assert(chars@.take(i + 1).last() == c);
                assert(after.drop_last() =~= before.drop_last());
            }
        }
    }
    assert(chars@.take(n as int) =~= chars@);
    let ghost prev_out = out@;
    match rejected_rule(&line) {
        Some(t) => {
            out.push(t);
        },
        Option::None => {},
    }
    proof {
        let all = split_lines(raw@);
        assert(all.last() == line@);
        assert(out@.map_values(|l: String| l@) =~= rejected_rules_of_lines(all));
    }
    out
}

/// The log file of the user `username`.
pub fn log_file_path(username: &str) -> (path: String)
    ensures
        path@ == "/tmp/ergo-log-"@ + username@ + ".log"@,
{
    let mut p = String::from_str("/tmp/ergo-log-");
    p.append(username);
    p.append(".log");
    p
}

/// The directory that holds `ergorc`: `$XDG_CONFIG_HOME` when it is set, else
/// `$HOME/.config`, where a missing `$HOME` is `/Users/<user name>` and a
/// missing user name is `defaultuser`.
pub open spec fn config_dir_spec(
    xdg_config_home: Option<Seq<char>>,
    home: Option<Seq<char>>,
    username: Option<Seq<char>>,
) -> Seq<char> {
    match xdg_config_home {
        Some(x) => x,
        None => {
            let h = match home {
                Some(h) => h,
                None => "/Users/"@ + match username {
                    Some(u) => u,
                    None => "defaultuser"@,
                },
            };
            h + "/.config"@
        },
    }
}

pub open spec fn opt_view(o: Option<&str>) -> Option<Seq<char>> {
    match o {
        Some(s) => Some(s@),
        None => None,
    }
}

/// The configuration directory, from the values of `$XDG_CONFIG_HOME` and
/// `$HOME` and the current user's name, each where there is one.
pub fn get_config_dir(xdg_config_home: Option<&str>, home: Option<&str>, username: Option<&str>) -> (dir: String)
    ensures
        dir@ == config_dir_spec(opt_view(xdg_config_home), opt_view(home), opt_view(username)),
{
    match xdg_config_home {
        Some(x) => String::from_str(x),
        None => {
            let mut h = match home {
                Some(h) => String::from_str(h),
                None => {
                    let mut p = String::from_str("/Users/");
                    match username {
                        Some(u) => p.append(u),
                        None => p.append("defaultuser"),
                    }
                    p
                },
            };
            h.append("/.config");
            h
        },
    }
}

/// The path of the configuration file in `config_dir`.
pub fn get_config_path(config_dir: &str) -> (path: String)
    ensures
        path@ == config_dir@ + "/ergorc"@,
{
    let mut p = String::from_str(config_dir);
    p.append("/ergorc");
    p
}

/// The keyword that sets a service mode in the configuration.
pub open spec fn service_keyword(mode: ServiceMode) -> Seq<char> {
    match mode {
        ServiceMode::YesService => "yesservice"@,
        ServiceMode::NoService => "noservice"@,
    }
}

/// The text of a fresh configuration file: two comment lines, then the keyword
/// of the service mode.
pub open spec fn config_file_content_spec(mode: ServiceMode) -> Seq<char> {
    "# ergo config"@ + "\n"@ + "# please see https://github.com/sse2/ergo for documentation"@ + "\n"@
        + service_keyword(mode) + "\n"@
}

/// The text that is written as a fresh configuration file.
pub fn config_file_content(service_mode: ServiceMode) -> (content: String)
    ensures
        content@ == config_file_content_spec(service_mode),
{
    let mut c = String::from_str("# ergo config");
    c.append("\n");
    c.append("# please see https://github.com/sse2/ergo for documentation");
    c.append("\n");
    match service_mode {
        ServiceMode::YesService => c.append("yesservice"),
        ServiceMode::NoService => c.append("noservice"),
    }
    c.append("\n");
    c
}

/// A text with neither white space at its ends nor an arrow is its own trim and
/// is in the rule parser's domain.
proof fn lemma_plain_line(t: Seq<char>)
    requires
        t.len() > 0,
        !crate::text::is_white_space_spec(t[0]),
        !crate::text::is_white_space_spec(t.last()),
        forall|i: int| 0 <= i < t.len() ==> t[i] != '-',
    ensures
        trim(t) == t,
        rule_in_domain(trim(t)),
{
    assert(trim_start(t) == t);
    assert(trim_end(t) == t);
    assert(!has_single_arrow(t)) by {
        if has_single_arrow(t) {
            let p = choose|p: int| crate::conditions::single_arrow_at(t, p);
            assert(is_arrow_at(t, p));
        }
    }
}

/// What a fresh configuration file holds reads back as the service mode it was
/// written for, with no other option set and no rule.
pub proof fn lemma_fresh_config_reads_back(mode: ServiceMode)
    ensures
        config_in_domain(config_file_content_spec(mode)),
        parse_config_spec(config_file_content_spec(mode)) == (ConfigView {
            verbose: false,
            firstrun: false,
            service_mode: Some(mode),
            rules: Seq::empty(),
        }),
{
    reveal_strlit("\n");
    reveal_strlit("# ergo config");
    reveal_strlit("# please see https://github.com/sse2/ergo for documentation");
    reveal_strlit("yesservice");
    reveal_strlit("noservice");
    reveal_strlit("verbose");
    reveal_strlit("firstrun");
    let a = "# ergo config"@;
    let b = "# please see https://github.com/sse2/ergo for documentation"@;
    let k = service_keyword(mode);
    let e = Seq::<char>::empty();
    let content = config_file_content_spec(mode);
    assert("\n"@ =~= seq!['\n']);
    let rest_k = k + seq!['\n'] + e;
    let rest_b = b + seq!['\n'] + rest_k;
    assert(content =~= a + seq!['\n'] + rest_b);
    assert(forall|i: int| 0 <= i < a.len() ==> a[i] != '\n' && a[i] != '-');
    assert(forall|i: int| 0 <= i < b.len() ==> b[i] != '\n');
    assert(forall|i: int| 0 <= i < k.len() ==> k[i] != '\n' && k[i] != '-');
    lemma_split_lines_single(a);
    lemma_split_lines_single(b);
    lemma_split_lines_single(k);
    lemma_split_lines_single(e);
    lemma_split_lines_join(k, e);
    lemma_split_lines_join(b, rest_k);
    lemma_split_lines_join(a, rest_b);
    let lines = seq![a, b, k, e];
    assert(split_lines(content) =~= lines);
    assert(trim_start(a) == a);
    assert(trim_end(a) == a);
    assert(trim_start(b) == b);
    assert(trim_end(b) == b);
    lemma_plain_line(k);
    assert(trim(e) =~= e);
    assert(is_comment(a));
    assert(is_comment(b));
    assert(rule_in_domain(trim(e))) by {
        if has_single_arrow(e) {
            let p = choose|p: int| crate::conditions::single_arrow_at(e, p);
            assert(is_arrow_at(e, p));
        }
    }
    assert forall|i: int| 0 <= i < lines.len() implies rule_in_domain(trim(#[trigger] lines[i])) by {
        if i == 3 {
            assert(lines[i] == e);
        }
    }
    let c1 = config_step(empty_config(), a);
    let c2 = config_step(c1, b);
    let c3 = config_step(c2, k);
    assert(c1 == empty_config());
    assert(c2 == empty_config());
    assert(c3 == (ConfigView { verbose: false, firstrun: false, service_mode: Some(mode), rules: Seq::empty() }));
    assert(config_step(c3, e) == c3);
    assert(lines.drop_last() =~= seq![a, b, k]);
    assert(seq![a, b, k].drop_last() =~= seq![a, b]);
    assert(seq![a, b].drop_last() =~= seq![a]);
    assert(seq![a].drop_last() =~= Seq::<Seq<char>>::empty());
    assert(config_of_lines(Seq::<Seq<char>>::empty()) == empty_config());
    assert(seq![a].last() == a);
    assert(config_of_lines(seq![a]) == c1);
    assert(config_of_lines(seq![a, b]) == c2);
    assert(config_of_lines(seq![a, b, k]) == c3);
}

/// The line is kept as a rule: after trimming it is neither blank, nor a
/// comment, nor an option keyword, and it parses with a non-empty command.
pub open spec fn is_kept_rule_line(t: Seq<char>) -> bool {
    &&& t.len() > 0
    &&& t[0] != '#'
    &&& t != "verbose"@
    &&& t != "firstrun"@
    &&& t != "yesservice"@
    &&& t != "noservice"@
    &&& parse_rule_spec(t) matches Some((_, cmd)) && cmd.len() > 0
}

/// Every rule line is kept, whatever the rules before it: a text followed by
/// one more line that parses as a rule with a command reads as the text's
/// configuration with that rule added at the end, and the options unchanged.
pub proof fn lemma_config_keeps_every_rule_line(raw: Seq<char>, line: Seq<char>)
    requires
        forall|i: int| 0 <= i < line.len() ==> line[i] != '\n',
        is_kept_rule_line(trim(line)),
    ensures
        ({
            let before = parse_config_spec(raw);
            let after = parse_config_spec(raw + seq!['\n'] + line);
            &&& parse_rule_spec(trim(line)) matches Some(rule) && after.rules == before.rules.push(rule)
            &&& after.rules.len() == before.rules.len() + 1
            &&& after.verbose == before.verbose
            &&& after.firstrun == before.firstrun
            &&& after.service_mode == before.service_mode
        }),
{
    lemma_split_lines_join(raw, line);
    lemma_split_lines_single(line);
    let lines = split_lines(raw) + seq![line];
    assert(lines.drop_last() =~= split_lines(raw));
    assert(lines.last() == line);
}

/// Lines that are not rules leave the rules as they are: a blank line, a
/// comment, an option keyword or a line that does not parse adds none.
pub proof fn lemma_config_other_lines_add_no_rule(raw: Seq<char>, line: Seq<char>)
    requires
        forall|i: int| 0 <= i < line.len() ==> line[i] != '\n',
        !is_kept_rule_line(trim(line)),
    ensures
        parse_config_spec(raw + seq!['\n'] + line).rules == parse_config_spec(raw).rules,
{
    lemma_split_lines_join(raw, line);
    lemma_split_lines_single(line);
    let lines = split_lines(raw) + seq![line];
    assert(lines.drop_last() =~= split_lines(raw));
    assert(lines.last() == line);
}

} // verus!
