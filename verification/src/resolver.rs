//! The command resolver: matches raw message text against the
//! configured command tree.
//!
//! A message is a command when it starts with a configured trigger (a
//! literal prefix or a mention string), possibly after leading
//! delimiters when whitespace-tolerant matching is on. The rest is
//! split into tokens; the first token is matched against group
//! prefixes and top-level command names and aliases in configuration
//! order. A matched group prefix moves matching one token into the
//! group, where a miss falls back to the group's default command, if
//! any. A matched command with sub-commands tries to match one more
//! token one level down; a miss there falls back to the parent with
//! the unconsumed tokens as arguments.

use crate::text::{is_delim, is_delim_exec, spec_tokenize, str_in_list, tail_of, tokenize};
use vstd::prelude::*;
use vstd::string::StrSliceExecFns;

verus! {

/// A sub-command: one level below its parent command.
#[derive(Clone)]
pub struct SubCommandSpec {
    /// Canonical name, used for dispatch and usage counting.
    pub name: String,
    /// Alternative names that match like the canonical one.
    pub aliases: Vec<String>,
}

/// One command: its names, its rate-limit bucket and its permission
/// flags.
#[derive(Clone)]
pub struct CommandSpec {
    /// Canonical name, used for dispatch and usage counting.
    pub name: String,
    /// Alternative names that match like the canonical one.
    pub aliases: Vec<String>,
    /// Name of the rate-limit bucket protecting this command, if any.
    pub bucket_name: Option<String>,
    /// Only configured owners may run it.
    pub owners_only: bool,
    /// Only messages from inside a guild may run it.
    pub guild_only: bool,
    /// Sub-commands, matched one token deeper.
    pub sub_commands: Vec<SubCommandSpec>,
}

/// A group of commands, optionally behind its own prefix tokens.
#[derive(Clone)]
pub struct GroupSpec {
    /// Tokens that select this group (empty: members match directly).
    pub prefixes: Vec<String>,
    /// Name of the member chosen when no token matches any member.
    pub default_command: Option<String>,
    /// Only configured owners may run members of this group.
    pub owners_only: bool,
    /// Only messages from inside a guild may run members.
    pub guild_only: bool,
    /// The member commands, in configuration order.
    pub commands: Vec<CommandSpec>,
}

/// Everything the resolver is configured with, immutable after
/// startup.
#[derive(Clone)]
pub struct ResolverConfig {
    /// Literal prefixes that mark a message as a command.
    pub prefixes: Vec<String>,
    /// Rendered mention strings of the bot itself, also accepted as
    /// triggers (the transport renders the bot id into them).
    pub mention_triggers: Vec<String>,
    /// Accept delimiters before the trigger and after it.
    pub whitespace_tolerant: bool,
    /// Token delimiters; a single space when nothing else is wanted.
    pub delimiters: Vec<char>,
    /// Keep quoted substrings together as single tokens.
    pub quote_aware: bool,
    /// The command groups, in matching order.
    pub groups: Vec<GroupSpec>,
}

/// The outcome of matching one message against the command tree.
pub enum Resolution {
    /// The message does not start with a configured trigger: it is not
    /// a command at all.
    NotACommand,
    /// It looked like a command, but no command, group or default
    /// matched this first token.
    Unrecognized {
        /// The token that matched nothing.
        raw_name: String,
    },
    /// A command matched.
    Matched {
        /// Index of the group it belongs to.
        group: usize,
        /// Index of the command within the group.
        command: usize,
        /// Index of the matched sub-command within the command, if one
        /// matched.
        sub: Option<usize>,
        /// Canonical name of what was matched (the sub-command's when
        /// one matched).
        name: String,
        /// The unconsumed tokens, in order.
        args: Vec<String>,
    },
}

/// The mathematical reading of a [`Resolution`].
pub enum ResolutionView {
    /// No configured trigger at the start.
    NotACommand,
    /// A trigger, but nothing matched the first token.
    Unrecognized { raw_name: Seq<char> },
    /// A command matched.
    Matched {
        group: int,
        command: int,
        sub: Option<int>,
        name: Seq<char>,
        args: Seq<Seq<char>>,
    },
}

impl View for Resolution {
    type V = ResolutionView;

    open spec fn view(&self) -> ResolutionView {
        match self {
            Resolution::NotACommand => ResolutionView::NotACommand,
            Resolution::Unrecognized { raw_name } => ResolutionView::Unrecognized {
                raw_name: raw_name@,
            },
            Resolution::Matched { group, command, sub, name, args } => ResolutionView::Matched {
                group: *group as int,
                command: *command as int,
                sub: match sub {
                    Some(s) => Some(*s as int),
                    None => None,
                },
                name: name@,
                args: args.deep_view(),
            },
        }
    }
}

/// Whether token `t` names command `c` (canonical name or alias).
pub open spec fn cmd_matches(c: CommandSpec, t: Seq<char>) -> bool {
    c.name@ == t || c.aliases.deep_view().contains(t)
}

/// Whether token `t` names sub-command `c` (canonical name or alias).
pub open spec fn sub_matches(c: SubCommandSpec, t: Seq<char>) -> bool {
    c.name@ == t || c.aliases.deep_view().contains(t)
}

/// The first command in `cmds` that token `t` names, if any.
pub open spec fn find_cmd(cmds: Seq<CommandSpec>, t: Seq<char>) -> Option<int>
    decreases cmds.len(),
{
    if cmds.len() == 0 {
        None
    } else if cmd_matches(cmds[0], t) {
        Some(0)
    } else {
        match find_cmd(cmds.skip(1), t) {
            Some(i) => Some(i + 1),
            None => None,
        }
    }
}

/// The first sub-command in `subs` that token `t` names, if any.
pub open spec fn find_sub(subs: Seq<SubCommandSpec>, t: Seq<char>) -> Option<int>
    decreases subs.len(),
{
    if subs.len() == 0 {
        None
    } else if sub_matches(subs[0], t) {
        Some(0)
    } else {
        match find_sub(subs.skip(1), t) {
            Some(i) => Some(i + 1),
            None => None,
        }
    }
}

/// The first command in `cmds` whose canonical name is `name`, if any
/// (how a group's default command is looked up).
pub open spec fn find_default(cmds: Seq<CommandSpec>, name: Seq<char>) -> Option<int>
    decreases cmds.len(),
{
    if cmds.len() == 0 {
        None
    } else if cmds[0].name@ == name {
        Some(0)
    } else {
        match find_default(cmds.skip(1), name) {
            Some(i) => Some(i + 1),
            None => None,
        }
    }
}

/// The first position at or after `i` that holds no delimiter (the
/// text's length when all the rest are delimiters).
pub open spec fn skip_delims(s: Seq<char>, delims: Seq<char>, i: int) -> int
    decreases s.len() - i,
{
    if i < 0 || i >= s.len() {
        s.len() as int
    } else if is_delim(s[i], delims) {
        skip_delims(s, delims, i + 1)
    } else {
        i
    }
}

/// Whether `p` occurs in `s` starting at position `at`.
pub open spec fn prefix_at(s: Seq<char>, p: Seq<char>, at: int) -> bool {
    0 <= at && at + p.len() <= s.len() && s.subrange(at, at + p.len()) == p
}

/// The first trigger in `triggers` that occurs in `s` at `at`, if any.
pub open spec fn first_trigger(triggers: Seq<Seq<char>>, s: Seq<char>, at: int) -> Option<int>
    decreases triggers.len(),
{
    if triggers.len() == 0 {
        None
    } else if prefix_at(s, triggers[0], at) {
        Some(0)
    } else {
        match first_trigger(triggers.skip(1), s, at) {
            Some(i) => Some(i + 1),
            None => None,
        }
    }
}

/// Where trigger matching starts: position 0, or past leading
/// delimiters when whitespace-tolerant.
pub open spec fn trigger_start(cfg: ResolverConfig, s: Seq<char>) -> int {
    if cfg.whitespace_tolerant {
        skip_delims(s, cfg.delimiters@, 0)
    } else {
        0
    }
}

/// The position right after the trigger, when the message carries one:
/// mention triggers are tried first, then the literal prefixes, each
/// in configuration order.
pub open spec fn trigger_end(cfg: ResolverConfig, s: Seq<char>) -> Option<int> {
    let at = trigger_start(cfg, s);
    match first_trigger(cfg.mention_triggers.deep_view(), s, at) {
        Some(i) => Some(at + cfg.mention_triggers.deep_view()[i].len()),
        None => match first_trigger(cfg.prefixes.deep_view(), s, at) {
            Some(i) => Some(at + cfg.prefixes.deep_view()[i].len()),
            None => None,
        },
    }
}

/// Resolution of a matched command: when tokens remain and the command
/// has sub-commands, one more token may select a sub-command; a miss
/// falls back to the parent, which keeps the token as an argument.
pub open spec fn command_resolution(
    g: GroupSpec,
    gi: int,
    ci: int,
    rest: Seq<Seq<char>>,
) -> ResolutionView {
    let c = g.commands@[ci];
    if rest.len() > 0 && c.sub_commands@.len() > 0 {
        match find_sub(c.sub_commands@, rest[0]) {
            Some(si) => ResolutionView::Matched {
                group: gi,
                command: ci,
                sub: Some(si),
                name: c.sub_commands@[si].name@,
                args: rest.skip(1),
            },
            None => ResolutionView::Matched {
                group: gi,
                command: ci,
                sub: None,
                name: c.name@,
                args: rest,
            },
        }
    } else {
        ResolutionView::Matched { group: gi, command: ci, sub: None, name: c.name@, args: rest }
    }
}

/// Resolution inside a group whose prefix token `ptok` was consumed:
/// the next token picks a member; with none left, or none matching,
/// the group's default command is chosen (keeping the unmatched token
/// as an argument), and without a default the input is unrecognized.
pub open spec fn group_resolution(
    g: GroupSpec,
    gi: int,
    ptok: Seq<char>,
    rest: Seq<Seq<char>>,
) -> ResolutionView {
    if rest.len() == 0 {
        match g.default_command {
            Some(d) => match find_default(g.commands@, d@) {
                Some(c) => command_resolution(g, gi, c, rest),
                None => ResolutionView::Unrecognized { raw_name: ptok },
            },
            None => ResolutionView::Unrecognized { raw_name: ptok },
        }
    } else {
        match find_cmd(g.commands@, rest[0]) {
            Some(c) => command_resolution(g, gi, c, rest.skip(1)),
            None => match g.default_command {
                Some(d) => match find_default(g.commands@, d@) {
                    Some(c) => command_resolution(g, gi, c, rest),
                    None => ResolutionView::Unrecognized { raw_name: rest[0] },
                },
                None => ResolutionView::Unrecognized { raw_name: rest[0] },
            },
        }
    }
}

/// Matching of the token list against the groups from index `i` on, in
/// configuration order: a group prefix match commits to that group; a
/// prefix-free group matches when its members do; with no group left
/// the first token is unrecognized.
pub open spec fn match_groups(groups: Seq<GroupSpec>, i: int, toks: Seq<Seq<char>>) -> ResolutionView
    decreases groups.len() - i,
{
    if i < 0 || i >= groups.len() {
        ResolutionView::Unrecognized {
            raw_name: if toks.len() > 0 {
                toks[0]
            } else {
                Seq::empty()
            },
        }
    } else {
        let g = groups[i];
        if g.prefixes@.len() > 0 {
            if g.prefixes.deep_view().contains(toks[0]) {
                group_resolution(g, i, toks[0], toks.skip(1))
            } else {
                match_groups(groups, i + 1, toks)
            }
        } else {
            match find_cmd(g.commands@, toks[0]) {
                Some(c) => command_resolution(g, i, c, toks.skip(1)),
                None => match_groups(groups, i + 1, toks),
            }
        }
    }
}

/// What resolving `s` yields: not a command without a trigger (or,
/// when not whitespace-tolerant, with a delimiter right after it);
/// otherwise the tail is tokenized and matched against the groups,
/// where an empty tail is an unrecognized empty name.
pub open spec fn resolve_spec(cfg: ResolverConfig, s: Seq<char>) -> ResolutionView {
    match trigger_end(cfg, s) {
        None => ResolutionView::NotACommand,
        Some(e) => {
            if !cfg.whitespace_tolerant && e < s.len() && is_delim(s[e], cfg.delimiters@) {
                ResolutionView::NotACommand
            } else {
                let toks = spec_tokenize(
                    s.subrange(e, s.len() as int),
                    cfg.delimiters@,
                    cfg.quote_aware,
                );
                if toks.len() == 0 {
                    ResolutionView::Unrecognized { raw_name: Seq::empty() }
                } else {
                    match_groups(cfg.groups@, 0, toks)
                }
            }
        },
    }
}

/// Whether `p` occurs in `s` starting at character position `at`.
pub fn prefix_at_exec(s: &str, p: &str, at: usize) -> (r: bool)
    requires
        at <= s@.len(),
    ensures
        r == prefix_at(s@, p@, at as int),
{
    let n = s.unicode_len();
    let m = p.unicode_len();
    if m > n - at {
        return false;
    }
    let mut j: usize = 0;
    while j < m
        invariant
            n == s@.len(),
            m == p@.len(),
            at + m <= n,
            j <= m,
            forall|k: int| 0 <= k < j ==> s@[at + k] == p@[k],
        decreases m - j,
    {
        if s.get_char(at + j) != p.get_char(j) {
            proof {
                assert(s@.subrange(at as int, at + m)[j as int] == s@[at + j]);
            }
            return false;
        }
        j = j + 1;
    }
    proof {
        assert(s@.subrange(at as int, at + m) =~= p@);
    }
    true
}

/// The first trigger string that occurs in `s` at `at`, if any.
fn find_trigger(s: &str, triggers: &Vec<String>, at: usize) -> (r: Option<usize>)
    requires
        at <= s@.len(),
    ensures
        match r {
            Some(i) => i < triggers@.len() && first_trigger(triggers.deep_view(), s@, at as int)
                == Some(i as int) && prefix_at(s@, triggers.deep_view()[i as int], at as int),
            None => first_trigger(triggers.deep_view(), s@, at as int) is None,
        },
{
    let mut i: usize = 0;
    while i < triggers.len()
        invariant
            at <= s@.len(),
            i <= triggers@.len(),
            forall|j: int| 0 <= j < i ==> !prefix_at(s@, triggers.deep_view()[j], at as int),
        decreases triggers@.len() - i,
    {
        if prefix_at_exec(s, triggers[i].as_str(), at) {
            proof {
                lemma_first_trigger_at(triggers.deep_view(), s@, at as int, i as int);
            }
            return Some(i);
        }
        i = i + 1;
    }
    proof {
        lemma_first_trigger_none(triggers.deep_view(), s@, at as int);
    }
    None
}

/// Whether token `t` names command `c`.
fn cmd_matches_exec(c: &CommandSpec, t: &String) -> (r: bool)
    ensures
        r == cmd_matches(*c, t@),
{
    if c.name == *t {
        true
    } else {
        str_in_list(&c.aliases, t)
    }
}

/// Whether token `t` names sub-command `c`.
fn sub_matches_exec(c: &SubCommandSpec, t: &String) -> (r: bool)
    ensures
        r == sub_matches(*c, t@),
{
    if c.name == *t {
        true
    } else {
        str_in_list(&c.aliases, t)
    }
}

/// The first command that token `t` names, if any.
fn find_cmd_exec(cmds: &Vec<CommandSpec>, t: &String) -> (r: Option<usize>)
    ensures
        match r {
            Some(i) => i < cmds@.len() && find_cmd(cmds@, t@) == Some(i as int),
            None => find_cmd(cmds@, t@) is None,
        },
{
    let mut i: usize = 0;
    while i < cmds.len()
        invariant
            i <= cmds@.len(),
            forall|j: int| 0 <= j < i ==> !cmd_matches(cmds@[j], t@),
        decreases cmds@.len() - i,
    {
        if cmd_matches_exec(&cmds[i], t) {
            proof {
                lemma_find_cmd_at(cmds@, t@, i as int);
            }
            return Some(i);
        }
        i = i + 1;
    }
    proof {
        lemma_find_cmd_none(cmds@, t@);
    }
    None
}

/// The first sub-command that token `t` names, if any.
fn find_sub_exec(subs: &Vec<SubCommandSpec>, t: &String) -> (r: Option<usize>)
    ensures
        match r {
            Some(i) => i < subs@.len() && find_sub(subs@, t@) == Some(i as int),
            None => find_sub(subs@, t@) is None,
        },
{
    let mut i: usize = 0;
    while i < subs.len()
        invariant
            i <= subs@.len(),
            forall|j: int| 0 <= j < i ==> !sub_matches(subs@[j], t@),
        decreases subs@.len() - i,
    {
        if sub_matches_exec(&subs[i], t) {
            proof {
                lemma_find_sub_at(subs@, t@, i as int);
            }
            return Some(i);
        }
        i = i + 1;
    }
    proof {
        lemma_find_sub_none(subs@, t@);
    }
    None
}

/// The first command whose canonical name is `name`, if any.
fn find_default_exec(cmds: &Vec<CommandSpec>, name: &String) -> (r: Option<usize>)
    ensures
        match r {
            Some(i) => i < cmds@.len() && find_default(cmds@, name@) == Some(i as int),
            None => find_default(cmds@, name@) is None,
        },
{
    let mut i: usize = 0;
    while i < cmds.len()
        invariant
            i <= cmds@.len(),
            forall|j: int| 0 <= j < i ==> cmds@[j].name@ != name@,
        decreases cmds@.len() - i,
    {
        if cmds[i].name == *name {
            proof {
                lemma_find_default_at(cmds@, name@, i as int);
            }
            return Some(i);
        }
        i = i + 1;
    }
    proof {
        lemma_find_default_none(cmds@, name@);
    }
    None
}

/// Builds the resolution of command `ci` of group `gi`, with the
/// tokens from `from` on as the unconsumed rest.
fn command_resolution_exec(
    g: &GroupSpec,
    gi: usize,
    ci: usize,
    tokens: &Vec<String>,
    from: usize,
) -> (r: Resolution)
    requires
        ci < g.commands@.len(),
        from <= tokens@.len(),
    ensures
        r@ == command_resolution(*g, gi as int, ci as int, tokens.deep_view().skip(from as int)),
        r matches Resolution::Matched { group, command, sub, .. } && group == gi && command == ci
            && (sub matches Some(si) ==> si < g.commands@[ci as int].sub_commands@.len()),
{
    let c = &g.commands[ci];
    let ghost rest = tokens.deep_view().skip(from as int);
    if from < tokens.len() && c.sub_commands.len() > 0 {
        proof {
            assert(rest[0] == tokens.deep_view()[from as int]);
        }
        match find_sub_exec(&c.sub_commands, &tokens[from]) {
            Some(si) => {
                let r = Resolution::Matched {
                    group: gi,
                    command: ci,
                    sub: Some(si),
                    name: c.sub_commands[si].name.clone(),
                    args: tail_of(tokens, from + 1),
                };
                proof {
                    assert(tokens.deep_view().skip(from + 1) =~= rest.skip(1));
                }
                r
            },
            None => Resolution::Matched {
                group: gi,
                command: ci,
                sub: None,
                name: c.name.clone(),
                args: tail_of(tokens, from),
            },
        }
    } else {
        Resolution::Matched {
            group: gi,
            command: ci,
            sub: None,
            name: c.name.clone(),
            args: tail_of(tokens, from),
        }
    }
}

/// Resolves within group `gi`, whose prefix was consumed as token 0.
fn group_resolution_exec(g: &GroupSpec, gi: usize, tokens: &Vec<String>) -> (r: Resolution)
    requires
        tokens@.len() >= 1,
    ensures
        r@ == group_resolution(
            *g,
            gi as int,
            tokens.deep_view()[0],
            tokens.deep_view().skip(1),
        ),
        r matches Resolution::Matched { group, command, sub, .. } ==> group == gi && command
            < g.commands@.len() && (sub matches Some(si) ==> si
            < g.commands@[command as int].sub_commands@.len()),
{
    let ghost rest = tokens.deep_view().skip(1);
    proof {
        assert(rest.len() == tokens.deep_view().len() - 1);
    }
    if tokens.len() == 1 {
        match &g.default_command {
            Some(d) => match find_default_exec(&g.commands, d) {
                Some(c) => {
                    let r = command_resolution_exec(g, gi, c, tokens, 1);
                    proof {
                        assert(tokens.deep_view().skip(1) =~= rest);
                    }
                    r
                },
                None => Resolution::Unrecognized { raw_name: tokens[0].clone() },
            },
            None => Resolution::Unrecognized { raw_name: tokens[0].clone() },
        }
    } else {
        proof {
            assert(rest[0] == tokens.deep_view()[1]);
        }
        match find_cmd_exec(&g.commands, &tokens[1]) {
            Some(c) => {
                let r = command_resolution_exec(g, gi, c, tokens, 2);
                proof {
                    assert(tokens.deep_view().skip(2) =~= rest.skip(1));
                }
                r
            },
            None => match &g.default_command {
                Some(d) => match find_default_exec(&g.commands, d) {
                    Some(c) => {
                        let r = command_resolution_exec(g, gi, c, tokens, 1);
                        proof {
                            assert(tokens.deep_view().skip(1) =~= rest);
                        }
                        r
                    },
                    None => Resolution::Unrecognized { raw_name: tokens[1].clone() },
                },
                None => Resolution::Unrecognized { raw_name: tokens[1].clone() },
            },
        }
    }
}

/// Resolves raw message text against the configured command tree.
pub fn resolve(cfg: &ResolverConfig, content: &String) -> (r: Resolution)
    ensures
        r@ == resolve_spec(*cfg, content@),
        r matches Resolution::Matched { group, command, sub, .. } ==> group < cfg.groups@.len()
            && command < cfg.groups@[group as int].commands@.len() && (sub matches Some(si)
            ==> si < cfg.groups@[group as int].commands@[command as int].sub_commands@.len()),
{
    let s = content.as_str();
    let n = s.unicode_len();
    let mut at: usize = 0;
    if cfg.whitespace_tolerant {
        loop
            invariant_except_break
                n == s@.len(),
                at <= n,
                skip_delims(s@, cfg.delimiters@, 0) == skip_delims(s@, cfg.delimiters@, at as int),
            ensures
                at <= n,
                n == s@.len(),
                at as int == skip_delims(s@, cfg.delimiters@, 0),
            decreases n - at,
        {
            if at >= n {
                break;
            }
            let c = s.get_char(at);
            if !is_delim_exec(c, &cfg.delimiters) {
                break;
            }
            at = at + 1;
        }
    }
    assert(at as int == trigger_start(*cfg, content@));
    let trigger_len: usize = match find_trigger(s, &cfg.mention_triggers, at) {
        Some(i) => cfg.mention_triggers[i].as_str().unicode_len(),
        None => match find_trigger(s, &cfg.prefixes, at) {
            Some(i) => cfg.prefixes[i].as_str().unicode_len(),
            None => {
                return Resolution::NotACommand;
            },
        },
    };
    let e = at + trigger_len;
    assert(trigger_end(*cfg, content@) == Some(e as int));
    if !cfg.whitespace_tolerant && e < n {
        let c = s.get_char(e);
        if is_delim_exec(c, &cfg.delimiters) {
            return Resolution::NotACommand;
        }
    }
    let tail = s.substring_char(e, n);
    let tokens = tokenize(tail, &cfg.delimiters, cfg.quote_aware);
    let ghost toksv = tokens.deep_view();
    if tokens.len() == 0 {
        return Resolution::Unrecognized { raw_name: String::new() };
    }
    proof {
        assert(resolve_spec(*cfg, content@) == match_groups(cfg.groups@, 0, toksv));
    }
    let mut gi: usize = 0;
    while gi < cfg.groups.len()
        invariant
            toksv == tokens.deep_view(),
            toksv.len() >= 1,
            gi <= cfg.groups@.len(),
            match_groups(cfg.groups@, 0, toksv) == match_groups(cfg.groups@, gi as int, toksv),
            resolve_spec(*cfg, content@) == match_groups(cfg.groups@, 0, toksv),
        decreases cfg.groups@.len() - gi,
    {
        let g = &cfg.groups[gi];
        if g.prefixes.len() > 0 {
            if str_in_list(&g.prefixes, &tokens[0]) {
                let r = group_resolution_exec(g, gi, &tokens);
                proof {
                    assert(match_groups(cfg.groups@, gi as int, toksv) == group_resolution(
                        *g,
                        gi as int,
                        toksv[0],
                        toksv.skip(1),
                    ));
                }
                return r;
            }
        } else {
            match find_cmd_exec(&g.commands, &tokens[0]) {
                Some(ci) => {
                    let r = command_resolution_exec(g, gi, ci, &tokens, 1);
                    proof {
                        assert(tokens.deep_view().skip(1) =~= toksv.skip(1));
                        assert(match_groups(cfg.groups@, gi as int, toksv)
                            == command_resolution(*g, gi as int, ci as int, toksv.skip(1)));
                    }
                    return r;
                },
                None => {},
            }
        }
        gi = gi + 1;
    }
    Resolution::Unrecognized { raw_name: tokens[0].clone() }
}

/// When the first `i` triggers do not occur at `at` and trigger `i`
/// does, it is the first match.
proof fn lemma_first_trigger_at(triggers: Seq<Seq<char>>, s: Seq<char>, at: int, i: int)
    requires
        0 <= i < triggers.len(),
        forall|j: int| 0 <= j < i ==> !prefix_at(s, triggers[j], at),
        prefix_at(s, triggers[i], at),
    ensures
        first_trigger(triggers, s, at) == Some(i),
    decreases i,
{
    if i > 0 {
        lemma_first_trigger_at(triggers.skip(1), s, at, i - 1);
    }
}

/// When no trigger occurs at `at`, there is no first match.
proof fn lemma_first_trigger_none(triggers: Seq<Seq<char>>, s: Seq<char>, at: int)
    requires
        forall|j: int| 0 <= j < triggers.len() ==> !prefix_at(s, triggers[j], at),
    ensures
        first_trigger(triggers, s, at) is None,
    decreases triggers.len(),
{
    if triggers.len() > 0 {
        lemma_first_trigger_none(triggers.skip(1), s, at);
    }
}

/// When the first `i` commands do not match `t` and command `i` does,
/// it is the first match.
proof fn lemma_find_cmd_at(cmds: Seq<CommandSpec>, t: Seq<char>, i: int)
    requires
        0 <= i < cmds.len(),
        forall|j: int| 0 <= j < i ==> !cmd_matches(cmds[j], t),
        cmd_matches(cmds[i], t),
    ensures
        find_cmd(cmds, t) == Some(i),
    decreases i,
{
    if i > 0 {
        lemma_find_cmd_at(cmds.skip(1), t, i - 1);
    }
}

/// When no command matches `t`, there is no first match.
proof fn lemma_find_cmd_none(cmds: Seq<CommandSpec>, t: Seq<char>)
    requires
        forall|j: int| 0 <= j < cmds.len() ==> !cmd_matches(cmds[j], t),
    ensures
        find_cmd(cmds, t) is None,
    decreases cmds.len(),
{
    if cmds.len() > 0 {
        lemma_find_cmd_none(cmds.skip(1), t);
    }
}

/// When the first `i` sub-commands do not match `t` and sub-command
/// `i` does, it is the first match.
proof fn lemma_find_sub_at(subs: Seq<SubCommandSpec>, t: Seq<char>, i: int)
    requires
        0 <= i < subs.len(),
        forall|j: int| 0 <= j < i ==> !sub_matches(subs[j], t),
        sub_matches(subs[i], t),
    ensures
        find_sub(subs, t) == Some(i),
    decreases i,
{
    if i > 0 {
        lemma_find_sub_at(subs.skip(1), t, i - 1);
    }
}

/// When no sub-command matches `t`, there is no first match.
proof fn lemma_find_sub_none(subs: Seq<SubCommandSpec>, t: Seq<char>)
    requires
        forall|j: int| 0 <= j < subs.len() ==> !sub_matches(subs[j], t),
    ensures
        find_sub(subs, t) is None,
    decreases subs.len(),
{
    if subs.len() > 0 {
        lemma_find_sub_none(subs.skip(1), t);
    }
}

/// When the first `i` command names differ from `name` and name `i`
/// equals it, it is the first match.
proof fn lemma_find_default_at(cmds: Seq<CommandSpec>, name: Seq<char>, i: int)
    requires
        0 <= i < cmds.len(),
        forall|j: int| 0 <= j < i ==> cmds[j].name@ != name,
        cmds[i].name@ == name,
    ensures
        find_default(cmds, name) == Some(i),
    decreases i,
{
    if i > 0 {
        lemma_find_default_at(cmds.skip(1), name, i - 1);
    }
}

/// When no command is named `name`, there is no first match.
proof fn lemma_find_default_none(cmds: Seq<CommandSpec>, name: Seq<char>)
    requires
        forall|j: int| 0 <= j < cmds.len() ==> cmds[j].name@ != name,
    ensures
        find_default(cmds, name) is None,
    decreases cmds.len(),
{
    if cmds.len() > 0 {
        lemma_find_default_none(cmds.skip(1), name);
    }
}

} // verus!
