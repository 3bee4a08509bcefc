//! The conversation that a design assistant holds with a language model:
//! the messages so far, and what each turn adds to them.
use vstd::prelude::*;

verus! {

/// The instructions that open every design conversation: what 3DL is, its
/// grammar, and how to answer.
pub const GENESIS_PROMPT: &'static str = r#"
            You are a software system designer. Your role is to design a software system using the custom 3DL system design language. Me, the user, will provide incremental feedback to improve and change the design.

            Here is an example of 3DL:
            ---
            package Test version 1.0.0 {
                    public entity TestEntity {
                        method get_name() -> string
                        method set_name(name: string)
                        method get_and_set_name(name: string) -> string
                        method get_multiple_parameters(name: string, age: integer) -> string
                    }
                }
            ---
            
            The 3DL you generate is parsed using the Rust package Pest. Here is the full grammar with comments of what you can use in the design:
            ---
            D3L = _{ SOI ~ package ~ EOI }
            package = { "package" ~ identifier ~ version* ~ entities* }
            entities = _{ ("{" ~ entity* ~ "}") }
            entity = { scope* ~ "entity" ~ identifier ~ ( "{" ~ attributes? ~ methods? ~ "}" )? }

            attributes = _{ "(" ~ attribute* ~ ")" }
            attribute = { identifier ~ ":" ~ atype ~ ","? }

            methods = _{ method+ }
            method = ${ "method " ~ identifier ~ parameters ~ returns? }

            scope = { "public" | "private" }
            atype = { identifier }
            parameters = !{ "(" ~ attribute* ~ ")" }
            returns = { " -> " ~ atype }

            identifier = @{ (ASCII_ALPHANUMERIC|"_")+ }
            version = { "version" ~ number ~ "." ~ number ~ "." ~ number }
            number = @{ ASCII_DIGIT+ }
            ---

            Respect the following constraints:
            * Use proper types for attributes where possible
            * Always remember previous designs and incrementally improve them
            * Prefer using entities over primitive types as attributes where  possible
            * Use domain driven design principles
            * A string is only a good attribute if there is no better type that can represent it
              better
            * VERY IMPORTANT: ONLY MAKE THE MINIMAL CHANGES NECESSARY FOR THE RESPONSE. DO NOT
              CHANGE OR REMOVE IF NOT REQUESTED BY THE USER

            Respond ONLY with a json object, and include no other commentary, in this format:
            ```
            {
              "3dl": "The 3DL",
              "thoughts": "Any additional thoughts or comments you have on the design",
              
            }
            ```
        "#;

/// The model that every turn of a design conversation is sent to.
pub const MODEL: &'static str = "gpt-4";

/// Who wrote a message of the conversation.
#[derive(Debug, PartialEq, Eq, Clone, Copy)]
pub enum Role {
    System,
    User,
    Assistant,
    Function,
    Tool,
    Developer,
}

/// One message of the conversation: who wrote it, its text, and the name of
/// its author where one is given.
#[derive(Debug)]
pub struct ChatMessage {
    pub role: Role,
    pub content: String,
    pub name: Option<String>,
}

/// What a message says.
pub struct SpecMessage {
    pub role: Role,
    pub content: Seq<char>,
    pub name: Option<Seq<char>>,
}

impl View for ChatMessage {
    type V = SpecMessage;

    open spec fn view(&self) -> SpecMessage {
        SpecMessage {
            role: self.role,
            content: self.content@,
            name: match self.name {
                Some(n) => Some(n@),
                None => None,
            },
        }
    }
}

pub open spec fn messages_view(v: Seq<ChatMessage>) -> Seq<SpecMessage> {
    v.map_values(|m: ChatMessage| m@)
}

/// A message of the system with the given text and no author's name.
pub open spec fn system_message(content: Seq<char>) -> SpecMessage {
    SpecMessage { role: Role::System, content, name: None }
}

/// A message of the user with the given text and no author's name.
pub open spec fn user_message(content: Seq<char>) -> SpecMessage {
    SpecMessage { role: Role::User, content, name: None }
}

impl ChatMessage {
    /// A copy of the message.
    pub fn duplicate(&self) -> (m: ChatMessage)
        ensures
            m@ == self@,
    {
        let name = match &self.name {
            Some(n) => Some(n.clone()),
            None => None,
        };
        ChatMessage { role: self.role, content: self.content.clone(), name }
    }
}

/// Why a turn of the conversation brought no reply.
#[derive(Debug, PartialEq, Eq, Clone, Copy)]
pub enum PromptError {
    /// The model answered with no choice of message.
    NoChoices,
}

impl PromptError {
    /// The error as text.
    pub fn to_string(&self) -> (s: String)
        ensures
            s@ == "No completion choices form openai"@,
    {
        String::from_str("No completion choices form openai")
    }
}

/// What a turn sends: the model to ask, and the whole conversation.
#[derive(Debug)]
pub struct TurnRequest {
    pub model: String,
    pub messages: Vec<ChatMessage>,
}

/// The messages of a conversation, oldest first.
#[derive(Debug)]
pub struct Conversation {
    messages: Vec<ChatMessage>,
}

impl View for Conversation {
    type V = Seq<SpecMessage>;

    closed spec fn view(&self) -> Seq<SpecMessage> {
        messages_view(self.messages@)
    }
}

impl Conversation {
    /// A conversation that holds only the system message `system_prompt`.
    pub fn new(system_prompt: String) -> (c: Conversation)
        ensures
            c@ == seq![system_message(system_prompt@)],
    {
        let mut messages: Vec<ChatMessage> = Vec::new();
        messages.push(ChatMessage { role: Role::System, content: system_prompt, name: None });
        let c = Conversation { messages };
        proof {
            assert(c@ =~= seq![system_message(system_prompt@)]);
        }
        c
    }

    /// A conversation opened by the design instructions: one system message
    /// that holds them.
    pub fn design() -> (c: Conversation)
        ensures
            c@ == seq![system_message(GENESIS_PROMPT@)],
    {
        Conversation::new(String::from_str(GENESIS_PROMPT))
    }

    /// The messages so far, oldest first.
    pub fn messages(&self) -> (m: &Vec<ChatMessage>)
        ensures
            messages_view(m@) == self@,
    {
        &self.messages
    }

    /// Adds what the user says, as a message with no author's name.
    pub fn push_user(&mut self, content: String)
        ensures
            final(self)@ == old(self)@.push(user_message(content@)),
    {
        let ghost before = self.messages@;
        let m = ChatMessage { role: Role::User, content, name: None };
        let ghost mv = m@;
        self.messages.push(m);
        proof {
            assert(messages_view(self.messages@) =~= messages_view(before).push(mv));
        }
    }

    /// The request of a turn: the model `MODEL`, sent the whole conversation
    /// so far.
    pub fn request(&self) -> (req: TurnRequest)
        ensures
            req.model@ == MODEL@,
            messages_view(req.messages@) == self@,
    {
        let mut messages: Vec<ChatMessage> = Vec::new();
        let mut i: usize = 0;
        while i < self.messages.len()
            invariant
                i <= self.messages@.len(),
                messages_view(messages@) == messages_view(self.messages@.take(i as int)),
            decreases self.messages@.len() - i,
        {
            let m = self.messages[i].duplicate();
            let ghost before = messages@;
            messages.push(m);
            i = i + 1;
            proof {
                assert(self.messages@.take(i as int) =~= self.messages@.take(i - 1).push(
                    self.messages@[i - 1],
                ));
                assert(messages_view(messages@) =~= messages_view(before).push(m@));
                assert(messages_view(self.messages@.take(i as int)) =~= messages_view(
                    self.messages@.take(i - 1),
                ).push(self.messages@[i - 1]@));
            }
        }
        proof {
            assert(self.messages@.take(i as int) =~= self.messages@);
        }
        TurnRequest { model: String::from_str(MODEL), messages }
    }

    /// Takes the model's answer: the first of its choices joins the
    /// conversation whole (role, text and name) and its text is returned.
    /// With no choice, the conversation stays as it was and the turn fails.
    pub fn record_reply(&mut self, choices: Vec<ChatMessage>) -> (r: Result<String, PromptError>)
        ensures
            choices@.len() == 0 ==> r == Err::<String, PromptError>(PromptError::NoChoices)
                && final(self)@ == old(self)@,
            choices@.len() > 0 ==> (r matches Ok(text) && text@ == choices@[0].content@)
                && final(self)@ == old(self)@.push(choices@[0]@),
    {
        if choices.len() == 0 {
            return Err(PromptError::NoChoices);
        }
        let reply = choices[0].duplicate();
        let text = reply.content.clone();
        let ghost before = self.messages@;
        let ghost rv = reply@;
        self.messages.push(reply);
        proof {
            assert(messages_view(self.messages@) =~= messages_view(before).push(rv));
        }
        Ok(text)
    }
}

/// What one turn makes of a conversation `h`: the question added, then the
/// reply where one was recorded (`None` where the model's call failed or it
/// gave no choice).
pub open spec fn after_turn(
    h: Seq<SpecMessage>,
    question: Seq<char>,
    reply: Option<SpecMessage>,
) -> Seq<SpecMessage> {
    match reply {
        Some(r) => h.push(user_message(question)).push(r),
        None => h.push(user_message(question)),
    }
}

/// How many of the turns brought a reply.
pub open spec fn count_replies(replies: Seq<Option<SpecMessage>>) -> nat
    decreases replies.len(),
{
    if replies.len() == 0 {
        0
    } else {
        count_replies(replies.drop_last()) + if replies.last() is Some {
            1nat
        } else {
            0nat
        }
    }
}

/// Where the question of turn `i` stands: after the system message, the
/// `i` earlier questions and the replies they brought.
pub open spec fn question_position(replies: Seq<Option<SpecMessage>>, i: int) -> int {
    1 + i + count_replies(replies.take(i))
}

proof fn lemma_count_step(replies: Seq<Option<SpecMessage>>, i: int)
    requires
        0 <= i < replies.len(),
    ensures
        count_replies(replies.take(i + 1)) == count_replies(replies.take(i)) + if replies[i] is Some {
            1nat
        } else {
            0nat
        },
{
    assert(replies.take(i + 1).drop_last() =~= replies.take(i));
}

proof fn lemma_count_mono(replies: Seq<Option<SpecMessage>>, a: int, b: int)
    requires
        0 <= a <= b <= replies.len(),
    ensures
        count_replies(replies.take(a)) <= count_replies(replies.take(b)),
    decreases b - a,
{
    if a < b {
        lemma_count_step(replies, b - 1);
        lemma_count_mono(replies, a, b - 1);
    }
}

/// A question and its reply stand before every later question.
proof fn lemma_position_order(replies: Seq<Option<SpecMessage>>, i: int, j: int)
    requires
        0 <= i < j <= replies.len(),
    ensures
        question_position(replies, i) + (if replies[i] is Some {
            2int
        } else {
            1int
        }) <= question_position(replies, j),
{
    lemma_count_step(replies, i);
    lemma_count_mono(replies, i + 1, j);
}

proof fn lemma_turns_prefix(
    system: Seq<char>,
    questions: Seq<Seq<char>>,
    replies: Seq<Option<SpecMessage>>,
    histories: Seq<Seq<SpecMessage>>,
    k: int,
)
    requires
        questions.len() == replies.len(),
        histories.len() == questions.len() + 1,
        histories[0] == seq![system_message(system)],
        forall|i: int|
            0 <= i < questions.len() ==> #[trigger] histories[i + 1] == after_turn(
                histories[i],
                questions[i],
                replies[i],
            ),
        0 <= k <= questions.len(),
    ensures
        histories[k].len() == 1 + k + count_replies(replies.take(k)),
        histories[k][0] == system_message(system),
        forall|i: int|
            0 <= i < k ==> #[trigger] histories[k][question_position(replies, i)] == user_message(
                questions[i],
            ),
        forall|i: int|
            0 <= i < k && replies[i] is Some ==> #[trigger] histories[k][question_position(
                replies,
                i,
            ) + 1] == replies[i].unwrap(),
    decreases k,
{
    if k == 0 {
        assert(replies.take(0) =~= Seq::<Option<SpecMessage>>::empty());
    } else {
        let j = k - 1;
        lemma_turns_prefix(system, questions, replies, histories, j);
        let h = histories[j];
        let h2 = histories[k];
        assert(histories[j + 1] == after_turn(histories[j], questions[j], replies[j]));
        assert(replies.take(k).drop_last() =~= replies.take(j));
        assert(replies.take(k).last() == replies[j]);
        assert(h2[0] == h[0]);
        assert(question_position(replies, j) == h.len());
        assert forall|i: int|
            0 <= i < k implies #[trigger] h2[question_position(replies, i)] == user_message(
                questions[i],
            ) by {
            if i < j {
                lemma_position_order(replies, i, j);
                assert(h2[question_position(replies, i)] == h[question_position(replies, i)]);
            }
        }
        assert forall|i: int|
            0 <= i < k && replies[i] is Some implies #[trigger] h2[question_position(replies, i)
                + 1] == replies[i].unwrap() by {
            if i < j {
                lemma_position_order(replies, i, j);
                assert(h2[question_position(replies, i) + 1] == h[question_position(replies, i)
                    + 1]);
            }
        }
    }
}

/// Over any number of turns, the conversation keeps everything: it starts
/// with the system message, holds one message for each question and one for
/// each reply, and holds every question in the order asked, each reply right
/// after its own question.
///
/// `histories[i]` is the conversation before turn `i` and `histories[i + 1]`
/// the one after it; `replies[i]` is what turn `i` recorded.
pub proof fn turns_keep_history(
    system: Seq<char>,
    questions: Seq<Seq<char>>,
    replies: Seq<Option<SpecMessage>>,
    histories: Seq<Seq<SpecMessage>>,
)
    requires
        questions.len() == replies.len(),
        histories.len() == questions.len() + 1,
        histories[0] == seq![system_message(system)],
        forall|i: int|
            0 <= i < questions.len() ==> #[trigger] histories[i + 1] == after_turn(
                histories[i],
                questions[i],
                replies[i],
            ),
    ensures
        histories.last()[0] == system_message(system),
        histories.last().len() == 1 + questions.len() + count_replies(replies),
        forall|i: int|
            0 <= i < questions.len() ==> #[trigger] histories.last()[question_position(
                replies,
                i,
            )] == user_message(questions[i]),
        forall|i: int|
            0 <= i < questions.len() && replies[i] is Some ==> #[trigger] histories.last()[question_position(
                replies,
                i,
            ) + 1] == replies[i].unwrap(),
        forall|i: int|
            0 <= i < questions.len() ==> #[trigger] question_position(replies, i)
                < question_position(replies, i + 1),
{
    let n = questions.len() as int;
    lemma_turns_prefix(system, questions, replies, histories, n);
    assert(replies.take(n) =~= replies);
    assert forall|i: int|
        0 <= i < questions.len() implies #[trigger] question_position(replies, i)
            < question_position(replies, i + 1) by {
        lemma_count_step(replies, i);
    }
}

} // verus!
