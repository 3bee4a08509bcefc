use d3l::design_prompter::ChatMessage;
use d3l::design_prompter::Conversation;
use d3l::design_prompter::PromptError;
use d3l::design_prompter::Role;
use d3l::design_prompter::GENESIS_PROMPT;
use d3l::design_prompter::MODEL;

fn summary(c: &Conversation) -> Vec<(Role, String)> {
    c.messages().iter().map(|m| (m.role, m.content.clone())).collect()
}

fn message(role: Role, content: &str) -> ChatMessage {
    ChatMessage { role, content: content.to_string(), name: None }
}

#[test]
fn a_new_conversation_holds_only_the_system_message() {
    let c = Conversation::new("be brief".to_string());
    assert_eq!(summary(&c), vec![(Role::System, "be brief".to_string())]);
}

#[test]
fn the_design_conversation_opens_with_the_grammar() {
    let c = Conversation::design();
    assert_eq!(summary(&c), vec![(Role::System, GENESIS_PROMPT.to_string())]);
    assert!(GENESIS_PROMPT.contains("method = ${ \"method \" ~ identifier ~ parameters ~ returns? }"));
}

#[test]
fn a_turn_appends_the_question_and_the_first_choice() {
    let mut c = Conversation::new("sys".to_string());
    c.push_user("design a shop".to_string());
    let reply = c.record_reply(vec![
        message(Role::Assistant, "package Shop"),
        message(Role::Assistant, "package Store"),
    ]);
    assert_eq!(reply, Ok("package Shop".to_string()));
    assert_eq!(
        summary(&c),
        vec![
            (Role::System, "sys".to_string()),
            (Role::User, "design a shop".to_string()),
            (Role::Assistant, "package Shop".to_string()),
        ]
    );
    c.push_user("add a cart".to_string());
    assert_eq!(c.record_reply(vec![message(Role::Assistant, "package Shop {}")]), Ok("package Shop {}".to_string()));
    assert_eq!(c.messages().len(), 5);
}

#[test]
fn a_reply_without_choices_fails_and_leaves_the_conversation() {
    let mut c = Conversation::new("sys".to_string());
    c.push_user("hello".to_string());
    let before = summary(&c);
    assert_eq!(c.record_reply(vec![]), Err(PromptError::NoChoices));
    assert_eq!(summary(&c), before);
    assert_eq!(PromptError::NoChoices.to_string(), "No completion choices form openai");
}

#[test]
fn duplicate_copies_role_and_text() {
    let m = message(Role::Tool, "x");
    let d = m.duplicate();
    assert_eq!(d.role, Role::Tool);
    assert_eq!(d.content, "x");
}

#[test]
fn a_recorded_reply_keeps_its_author_name() {
    let mut c = Conversation::design();
    c.push_user("q".to_string());
    let reply = ChatMessage { role: Role::Assistant, content: "a".to_string(), name: Some("designer".to_string()) };
    assert_eq!(c.record_reply(vec![reply]), Ok("a".to_string()));
    let last = c.messages().last().unwrap();
    assert_eq!(last.name, Some("designer".to_string()));
    assert_eq!(last.role, Role::Assistant);
    assert!(c.messages()[1].name.is_none());
}

#[test]
fn a_turn_asks_the_model_with_the_whole_conversation() {
    let mut c = Conversation::design();
    c.push_user("design a library".to_string());
    let req = c.request();
    assert_eq!(req.model, "gpt-4");
    assert_eq!(MODEL, "gpt-4");
    let sent: Vec<(Role, String)> = req.messages.iter().map(|m| (m.role, m.content.clone())).collect();
    assert_eq!(sent, summary(&c));
    assert_eq!(sent.last().unwrap(), &(Role::User, "design a library".to_string()));
}

#[test]
fn many_turns_keep_every_question_and_reply_in_order() {
    let mut c = Conversation::new("sys".to_string());
    c.push_user("q1".to_string());
    assert!(c.record_reply(vec![message(Role::Assistant, "r1")]).is_ok());
    c.push_user("q2".to_string());
    assert!(c.record_reply(vec![]).is_err());
    c.push_user("q3".to_string());
    assert!(c.record_reply(vec![message(Role::Assistant, "r3")]).is_ok());
    let texts: Vec<String> = c.messages().iter().map(|m| m.content.clone()).collect();
    assert_eq!(texts, vec!["sys", "q1", "r1", "q2", "q3", "r3"]);
}
