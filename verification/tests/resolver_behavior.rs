//! Resolution scenarios: group prefixes, aliases, defaults,
//! sub-commands and unrecognized input.

use botcore::resolver::{
    resolve, CommandSpec, GroupSpec, Resolution, ResolverConfig, SubCommandSpec,
};

fn cmd(name: &str) -> CommandSpec {
    CommandSpec {
        name: name.to_string(),
        aliases: Vec::new(),
        bucket_name: None,
        owners_only: false,
        guild_only: false,
        sub_commands: Vec::new(),
    }
}

fn demo_config() -> ResolverConfig {
    let mut multiply = cmd("multiply");
    multiply.aliases = vec!["*".to_string()];
    let mut cat = cmd("cat");
    cat.aliases = vec!["kitten".to_string()];
    cat.bucket_name = Some("emoji".to_string());
    let mut dog = cmd("dog");
    dog.aliases = vec!["woof".to_string()];
    dog.bucket_name = Some("emoji".to_string());
    let bird = cmd("bird");
    let mut upper = cmd("upper");
    upper.sub_commands = vec![SubCommandSpec {
        name: "sub".to_string(),
        aliases: vec![
            "subcommand".to_string(),
            "sub-command".to_string(),
            "secret".to_string(),
        ],
    }];
    let general = GroupSpec {
        prefixes: Vec::new(),
        default_command: None,
        owners_only: false,
        guild_only: false,
        commands: vec![cmd("about"), cmd("say"), multiply.clone(), upper],
    };
    let math = GroupSpec {
        prefixes: vec!["math".to_string()],
        default_command: None,
        owners_only: false,
        guild_only: false,
        commands: vec![multiply],
    };
    let emoji = GroupSpec {
        prefixes: vec!["emoji".to_string(), "em".to_string()],
        default_command: Some("bird".to_string()),
        owners_only: false,
        guild_only: false,
        commands: vec![cat, dog, bird],
    };
    ResolverConfig {
        prefixes: vec!["/".to_string()],
        mention_triggers: vec!["<@99>".to_string(), "<@!99>".to_string()],
        whitespace_tolerant: true,
        delimiters: vec![' '],
        quote_aware: true,
        groups: vec![general, math, emoji],
    }
}

fn resolved_name_and_args(cfg: &ResolverConfig, text: &str) -> (String, Vec<String>) {
    match resolve(cfg, &text.to_string()) {
        Resolution::Matched { name, args, .. } => (name, args),
        Resolution::Unrecognized { raw_name } => panic!("unrecognized: {raw_name}"),
        Resolution::NotACommand => panic!("not a command"),
    }
}

#[test]
fn group_prefix_with_alias_resolves_to_multiply() {
    let cfg = demo_config();
    let (name, args) = resolved_name_and_args(&cfg, "/math *");
    assert_eq!(name, "multiply");
    assert!(args.is_empty());
}

#[test]
fn group_member_resolves_and_empty_group_falls_to_default() {
    let cfg = demo_config();
    let (name, args) = resolved_name_and_args(&cfg, "/em cat");
    assert_eq!(name, "cat");
    assert!(args.is_empty());
    let (name, args) = resolved_name_and_args(&cfg, "/em");
    assert_eq!(name, "bird");
    assert!(args.is_empty());
}

#[test]
fn unmatched_group_member_falls_to_default_with_args() {
    let cfg = demo_config();
    let (name, args) = resolved_name_and_args(&cfg, "/emoji walrus");
    assert_eq!(name, "bird");
    assert_eq!(args, vec!["walrus".to_string()]);
}

#[test]
fn unknown_name_is_unrecognized() {
    let cfg = demo_config();
    match resolve(&cfg, &"/frobnicate".to_string()) {
        Resolution::Unrecognized { raw_name } => assert_eq!(raw_name, "frobnicate"),
        _ => panic!("expected Unrecognized"),
    }
}

#[test]
fn plain_text_is_not_a_command() {
    let cfg = demo_config();
    assert!(matches!(
        resolve(&cfg, &"hello there".to_string()),
        Resolution::NotACommand
    ));
}

#[test]
fn mention_trigger_resolves_like_a_prefix() {
    let cfg = demo_config();
    let (name, _) = resolved_name_and_args(&cfg, "<@99> about");
    assert_eq!(name, "about");
}

#[test]
fn sub_command_matches_by_alias_and_miss_falls_back_to_parent() {
    let cfg = demo_config();
    let (name, args) = resolved_name_and_args(&cfg, "/upper secret");
    assert_eq!(name, "sub");
    assert!(args.is_empty());
    let (name, args) = resolved_name_and_args(&cfg, "/upper unknown words");
    assert_eq!(name, "upper");
    assert_eq!(args, vec!["unknown".to_string(), "words".to_string()]);
}

#[test]
fn quoted_argument_stays_one_token() {
    let cfg = demo_config();
    let (name, args) = resolved_name_and_args(&cfg, "/say \"hello big world\" tail");
    assert_eq!(name, "say");
    assert_eq!(args, vec!["hello big world".to_string(), "tail".to_string()]);
}

#[test]
fn leading_whitespace_is_tolerated_before_trigger() {
    let cfg = demo_config();
    let (name, _) = resolved_name_and_args(&cfg, "  /about");
    assert_eq!(name, "about");
}

#[test]
fn a_bare_trigger_is_unrecognized_with_an_empty_name() {
    let cfg = demo_config();
    match resolve(&cfg, &"/".to_string()) {
        Resolution::Unrecognized { raw_name } => assert_eq!(raw_name, ""),
        _ => panic!("expected Unrecognized"),
    }
}

#[test]
fn direct_alias_matches_top_level_command() {
    let cfg = demo_config();
    let (name, _) = resolved_name_and_args(&cfg, "/*");
    assert_eq!(name, "multiply");
}
