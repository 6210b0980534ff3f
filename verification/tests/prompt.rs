use hllset::context::ConversationContext;
use hllset::exchange::{Exchange, Role};
use hllset::prompt::{build_prompt, build_prompt_from_restored, build_prompt_with, PromptOptions};

#[test]
fn test_build_prompt_contains_turns() {
    let ctx = ConversationContext::build(vec![
        Exchange::from_text(Role::User, "how does a cat sit"),
        Exchange::from_text(Role::Assistant, "a cat sits on the mat"),
    ]);
    let prompt = build_prompt(&ctx, 0);
    assert!(
        prompt.contains("user: how does a cat sit"),
        "prompt={prompt}"
    );
    assert!(prompt.contains("assistant: a cat sits on the mat"));
    assert!(prompt.ends_with("assistant:"));
    assert!(prompt.contains("[context: 2 exchanges"));
    assert!(prompt.contains("top follow links"));
}

#[test]
fn test_build_prompt_predicted_continuations() {
    let ctx = ConversationContext::build(vec![
        Exchange::from_text(Role::User, "the cat sat"),
        Exchange::from_text(Role::Assistant, "the cat purred"),
    ]);
    let prompt = build_prompt(&ctx, 0);
    assert!(prompt.contains("[top follow links:"));
    assert!(prompt.contains("[predicted continuations:") || prompt.ends_with("assistant:"));
}

#[test]
fn test_build_prompt_no_metadata() {
    let ctx = ConversationContext::build(vec![Exchange::from_text(Role::User, "hello")]);
    let opts = PromptOptions {
        header: false,
        include_metadata: false,
        top_links: 0,
        predicted_continuations: 0,
    };
    let prompt = build_prompt_with(&ctx, &opts, 0);
    assert!(!prompt.contains("[context:"));
    assert!(prompt.starts_with("user: hello\n"));
    assert!(prompt.ends_with("assistant:"));
    assert_eq!(prompt, "user: hello\nassistant:");
}

#[test]
fn test_build_prompt_from_restored_alternates_roles() {
    let ctx = ConversationContext::build(vec![
        Exchange::from_text(Role::User, "alpha beta"),
        Exchange::from_text(Role::Assistant, "gamma delta"),
    ]);
    let restored = ctx.restore();
    let prompt = build_prompt_from_restored(&restored, "epsilon zeta", Role::User);
    assert!(prompt.contains("user: alpha beta"), "prompt={prompt}");
    assert!(prompt.contains("assistant: gamma delta"));
    assert!(prompt.contains("user: epsilon zeta"));
    assert!(prompt.ends_with("assistant:"));
}

#[test]
fn test_empty_context_prompt() {
    let ctx = ConversationContext::new();
    let prompt = build_prompt(&ctx, 0);
    assert!(prompt.contains("[context: 0 exchanges"));
    assert!(prompt.ends_with("assistant:"));
}

#[test]
fn digest_and_links_are_spelled_out() {
    let ctx = ConversationContext::build(vec![Exchange::from_tokens(
        Role::User,
        vec![b"a".to_vec(), b"b".to_vec(), b"a".to_vec(), b"b".to_vec()],
    )]);
    let opts = PromptOptions {
        header: true,
        include_metadata: true,
        top_links: 1,
        predicted_continuations: 0,
    };
    let pop = ctx.top.hll.popcount();
    let expected = format!(
        "You are continuing a conversation. Below is the reconstructed context.\n\n\
         [context: 1 exchanges | union popcount={pop} | cardinality~12]\n\
         [top follow links: a \u{2192} b \u{d7}2]\n\nuser: a b a b\nassistant:"
    );
    assert_eq!(build_prompt_with(&ctx, &opts, 12), expected);
    assert_eq!(ctx.to_prompt_with(&opts, 12), expected);
}

#[test]
fn defaults_of_the_options() {
    let d = PromptOptions::default();
    assert!(d.header);
    assert!(d.include_metadata);
    assert_eq!(d.top_links, 5);
    assert_eq!(d.predicted_continuations, 3);
}
