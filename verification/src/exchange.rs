//! Turning records of one format into records of another.

use vstd::prelude::*;
use vstd::string::StringExecFns;

use crate::record::{
    chatml_speaker, chatml_valid, sharegpt_speaker, sharegpt_valid, turns_text, Alpaca, AlpacaView,
    ChatML, ChatMLMessage, ShareGPT, ShareGPTConversation, Turn,
};
use crate::text::same_text;

verus! {

/// What the user says in a conversation made of an instruction record: the instruction, and the
/// input on a line of its own where there is one.
pub open spec fn request(a: AlpacaView) -> Seq<char> {
    if a.input.len() == 0 {
        a.instruction
    } else {
        a.instruction + seq!['\n'] + a.input
    }
}

/// The conversation made of an instruction record.
pub open spec fn exchange(a: AlpacaView, user: Seq<char>, model: Seq<char>) -> Seq<Turn> {
    seq![Turn { speaker: user, words: request(a) }, Turn { speaker: model, words: a.output }]
}

/// What a speaker says first; nothing where there is no such speaker.
pub open spec fn first_words(turns: Seq<Turn>, speaker: Seq<char>) -> Seq<char>
    decreases turns.len(),
{
    if turns.len() == 0 {
        Seq::empty()
    } else if turns[0].speaker == speaker {
        turns[0].words
    } else {
        first_words(turns.drop_first(), speaker)
    }
}

/// The instruction record made of a conversation.
pub open spec fn condensed(turns: Seq<Turn>, user: Seq<char>, model: Seq<char>) -> AlpacaView {
    AlpacaView {
        instruction: first_words(turns, user),
        input: Seq::empty(),
        output: first_words(turns, model),
    }
}

/// The ChatML role of a ShareGPT speaker.
pub open spec fn chatml_role(speaker: Seq<char>) -> Seq<char> {
    if speaker == "human"@ {
        "user"@
    } else if speaker == "gpt"@ {
        "assistant"@
    } else {
        speaker
    }
}

/// The ShareGPT speaker of a ChatML role.
pub open spec fn sharegpt_from(role: Seq<char>) -> Seq<char> {
    if role == "user"@ {
        "human"@
    } else if role == "assistant"@ {
        "gpt"@
    } else {
        role
    }
}

/// A ShareGPT conversation with ChatML roles.
pub open spec fn with_chatml_roles(turns: Seq<Turn>) -> Seq<Turn> {
    turns.map_values(|t: Turn| Turn { speaker: chatml_role(t.speaker), words: t.words })
}

/// A ChatML conversation with ShareGPT speakers.
pub open spec fn with_sharegpt_speakers(turns: Seq<Turn>) -> Seq<Turn> {
    turns.map_values(|t: Turn| Turn { speaker: sharegpt_from(t.speaker), words: t.words })
}

/// The request of an instruction record.
fn request_text(a: &Alpaca) -> (r: String)
    ensures
        r@ == request(a@),
{
    proof {
        reveal_strlit("");
        assert(a@.input.len() == 0 <==> a.input@ =~= ""@);
    }
    if same_text(a.input.as_str(), "") {
        a.instruction.clone()
    } else {
        proof {
            reveal_strlit("\n");
            assert("\n"@ =~= seq!['\n']);
        }
        a.instruction.clone().concat("\n").concat(a.input.as_str())
    }
}

impl Alpaca {
    /// The record as a ShareGPT conversation.
    pub fn to_sharegpt(&self) -> (r: ShareGPT)
        ensures
            r@ == exchange(self@, "human"@, "gpt"@),
    {
        let mut conversations: Vec<ShareGPTConversation> = Vec::new();
        conversations.push(
            ShareGPTConversation { from: "human".to_owned(), value: request_text(self) },
        );
        conversations.push(
            ShareGPTConversation { from: "gpt".to_owned(), value: self.output.clone() },
        );
        let r = ShareGPT { conversations };
        assert(r@ =~= exchange(self@, "human"@, "gpt"@));
        r
    }

    /// The record as a ChatML conversation.
    pub fn to_chatml(&self) -> (r: ChatML)
        ensures
            r@ == exchange(self@, "user"@, "assistant"@),
    {
        let mut messages: Vec<ChatMLMessage> = Vec::new();
        messages.push(ChatMLMessage { role: "user".to_owned(), content: request_text(self) });
        messages.push(
            ChatMLMessage { role: "assistant".to_owned(), content: self.output.clone() },
        );
        let r = ChatML { messages };
        assert(r@ =~= exchange(self@, "user"@, "assistant"@));
        r
    }
}

impl ShareGPT {
    /// What the first turn of a speaker says.
    fn first_of(&self, speaker: &str) -> (r: String)
        ensures
            r@ == first_words(self@, speaker@),
    {
        let mut i: usize = 0;
        assert(self@.skip(0) =~= self@);
        while i < self.conversations.len()
            invariant
                i <= self.conversations.len(),
                first_words(self@, speaker@) == first_words(self@.skip(i as int), speaker@),
            decreases self.conversations.len() - i,
        {
            assert(self@.skip(i as int)[0] == self@[i as int]);
            if same_text(self.conversations[i].from.as_str(), speaker) {
                return self.conversations[i].value.clone();
            }
            assert(self@.skip(i as int).drop_first() =~= self@.skip(i + 1));
            i += 1;
        }
        String::new()
    }

    /// The conversation as an instruction record: the first human and the first model turn.
    pub fn to_alpaca(&self) -> (r: Alpaca)
        ensures
            r@ == condensed(self@, "human"@, "gpt"@),
    {
        Alpaca {
            instruction: self.first_of("human"),
            input: String::new(),
            output: self.first_of("gpt"),
        }
    }

    /// The conversation with ChatML roles.
    pub fn to_chatml(&self) -> (r: ChatML)
        ensures
            r@ == with_chatml_roles(self@),
    {
        let mut messages: Vec<ChatMLMessage> = Vec::new();
        let mut i: usize = 0;
        while i < self.conversations.len()
            invariant
                i <= self.conversations.len(),
                messages.len() == i,
                forall|j: int|
                    0 <= j < i ==> (#[trigger] messages@[j])@ == with_chatml_roles(self@)[j],
            decreases self.conversations.len() - i,
        {
            let turn = &self.conversations[i];
            let role = if same_text(turn.from.as_str(), "human") {
                "user".to_owned()
            } else if same_text(turn.from.as_str(), "gpt") {
                "assistant".to_owned()
            } else {
                turn.from.clone()
            };
            messages.push(ChatMLMessage { role, content: turn.value.clone() });
            i += 1;
        }
        let r = ChatML { messages };
        assert(r@ =~= with_chatml_roles(self@));
        r
    }
}

impl ChatML {
    /// What the first message of a role says.
    fn first_of(&self, role: &str) -> (r: String)
        ensures
            r@ == first_words(self@, role@),
    {
        let mut i: usize = 0;
        assert(self@.skip(0) =~= self@);
        while i < self.messages.len()
            invariant
                i <= self.messages.len(),
                first_words(self@, role@) == first_words(self@.skip(i as int), role@),
            decreases self.messages.len() - i,
        {
            assert(self@.skip(i as int)[0] == self@[i as int]);
            if same_text(self.messages[i].role.as_str(), role) {
                return self.messages[i].content.clone();
            }
            assert(self@.skip(i as int).drop_first() =~= self@.skip(i + 1));
            i += 1;
        }
        String::new()
    }

    /// The chat as an instruction record: the first user and the first assistant message.
    pub fn to_alpaca(&self) -> (r: Alpaca)
        ensures
            r@ == condensed(self@, "user"@, "assistant"@),
    {
        Alpaca {
            instruction: self.first_of("user"),
            input: String::new(),
            output: self.first_of("assistant"),
        }
    }

    /// The chat with ShareGPT speakers.
    pub fn to_sharegpt(&self) -> (r: ShareGPT)
        ensures
            r@ == with_sharegpt_speakers(self@),
    {
        let mut conversations: Vec<ShareGPTConversation> = Vec::new();
        let mut i: usize = 0;
        while i < self.messages.len()
            invariant
                i <= self.messages.len(),
                conversations.len() == i,
                forall|j: int|
                    0 <= j < i ==> (#[trigger] conversations@[j])@ == with_sharegpt_speakers(
                        self@,
                    )[j],
            decreases self.messages.len() - i,
        {
            let message = &self.messages[i];
            let from = if same_text(message.role.as_str(), "user") {
                "human".to_owned()
            } else if same_text(message.role.as_str(), "assistant") {
                "gpt".to_owned()
            } else {
                message.role.clone()
            };
            conversations.push(ShareGPTConversation { from, value: message.content.clone() });
            i += 1;
        }
        let r = ShareGPT { conversations };
        assert(r@ =~= with_sharegpt_speakers(self@));
        r
    }
}

/// The names of the speakers are pairwise different.
proof fn lemma_speakers_differ()
    ensures
        "human"@ != "gpt"@,
        "human"@ != "system"@,
        "gpt"@ != "system"@,
        "user"@ != "assistant"@,
        "user"@ != "system"@,
        "assistant"@ != "system"@,
        "user"@ != "human"@,
        "user"@ != "gpt"@,
        "assistant"@ != "human"@,
        "assistant"@ != "gpt"@,
{
    reveal_strlit("human");
    reveal_strlit("gpt");
    reveal_strlit("system");
    reveal_strlit("user");
    reveal_strlit("assistant");
    assert("human"@.len() == 5 && "gpt"@.len() == 3 && "system"@.len() == 6 && "user"@.len() == 4
        && "assistant"@.len() == 9);
}

/// A conversation made of an instruction record conforms to either chat schema.
pub proof fn law_exchange_is_valid(a: AlpacaView)
    ensures
        sharegpt_valid(exchange(a, "human"@, "gpt"@)),
        chatml_valid(exchange(a, "user"@, "assistant"@)),
{
}

/// An instruction record without input survives the way through a conversation and back; one with
/// input comes back with the input on the lines after the instruction.
pub proof fn law_alpaca_round_trip(a: AlpacaView)
    ensures
        condensed(exchange(a, "human"@, "gpt"@), "human"@, "gpt"@) == (AlpacaView {
            instruction: request(a),
            input: Seq::empty(),
            output: a.output,
        }),
        condensed(exchange(a, "user"@, "assistant"@), "user"@, "assistant"@) == (AlpacaView {
            instruction: request(a),
            input: Seq::empty(),
            output: a.output,
        }),
        a.input.len() == 0 ==> condensed(exchange(a, "human"@, "gpt"@), "human"@, "gpt"@) == a
            && condensed(exchange(a, "user"@, "assistant"@), "user"@, "assistant"@) == a,
{
    lemma_speakers_differ();
    lemma_condensed_exchange(a, "human"@, "gpt"@);
    lemma_condensed_exchange(a, "user"@, "assistant"@);
}

proof fn lemma_condensed_exchange(a: AlpacaView, user: Seq<char>, model: Seq<char>)
    requires
        user != model,
    ensures
        condensed(exchange(a, user, model), user, model) == (AlpacaView {
            instruction: request(a),
            input: Seq::empty(),
            output: a.output,
        }),
        a.input.len() == 0 ==> condensed(exchange(a, user, model), user, model) == a,
{
    let turns = exchange(a, user, model);
    assert(turns.drop_first()[0] == turns[1]);
    assert(first_words(turns, model) == first_words(turns.drop_first(), model));
    if a.input.len() == 0 {
        assert(a.input =~= Seq::<char>::empty());
    }
}

/// Whether no turn of a conversation has one of two speakers.
pub open spec fn lacks_speakers(turns: Seq<Turn>, a: Seq<char>, b: Seq<char>) -> bool {
    forall|i: int|
        0 <= i < turns.len() ==> (#[trigger] turns[i]).speaker != a && turns[i].speaker != b
}

/// A ShareGPT conversation without the speakers that ChatML has in place of its own comes back
/// from ChatML as it was.
pub proof fn law_sharegpt_chatml_round_trip(turns: Seq<Turn>)
    requires
        lacks_speakers(turns, "user"@, "assistant"@),
    ensures
        with_sharegpt_speakers(with_chatml_roles(turns)) == turns,
{
    lemma_speakers_differ();
    assert(with_sharegpt_speakers(with_chatml_roles(turns)) =~= turns);
}

/// A ChatML conversation without the roles that ShareGPT has in place of its own comes back from
/// ShareGPT as it was.
pub proof fn law_chatml_sharegpt_round_trip(turns: Seq<Turn>)
    requires
        lacks_speakers(turns, "human"@, "gpt"@),
    ensures
        with_chatml_roles(with_sharegpt_speakers(turns)) == turns,
{
    lemma_speakers_differ();
    assert(with_chatml_roles(with_sharegpt_speakers(turns)) =~= turns);
}

/// A valid conversation of either schema lacks the other's speakers, and becomes a valid
/// conversation of the other.
pub proof fn law_renaming_keeps_validity(turns: Seq<Turn>)
    ensures
        sharegpt_valid(turns) ==> lacks_speakers(turns, "user"@, "assistant"@) && chatml_valid(
            with_chatml_roles(turns),
        ),
        chatml_valid(turns) ==> lacks_speakers(turns, "human"@, "gpt"@) && sharegpt_valid(
            with_sharegpt_speakers(turns),
        ),
{
    lemma_speakers_differ();
    if sharegpt_valid(turns) {
        assert forall|i: int| 0 <= i < turns.len() implies chatml_speaker(
            (#[trigger] with_chatml_roles(turns)[i]).speaker,
        ) by {
            assert(sharegpt_speaker(turns[i].speaker));
        }
    }
    if chatml_valid(turns) {
        assert forall|i: int| 0 <= i < turns.len() implies sharegpt_speaker(
            (#[trigger] with_sharegpt_speakers(turns)[i]).speaker,
        ) by {
            assert(chatml_speaker(turns[i].speaker));
        }
    }
}

/// Renaming the speakers leaves the canonical text as it is.
pub proof fn law_renaming_keeps_text(turns: Seq<Turn>)
    ensures
        turns_text(with_chatml_roles(turns)) == turns_text(turns),
        turns_text(with_sharegpt_speakers(turns)) == turns_text(turns),
{
    assert(with_chatml_roles(turns).map_values(|t: Turn| t.words) =~= turns.map_values(
        |t: Turn| t.words,
    ));
    assert(with_sharegpt_speakers(turns).map_values(|t: Turn| t.words) =~= turns.map_values(
        |t: Turn| t.words,
    ));
}

/// The user asks with the instruction, and, where there is an input, with this whole on the lines
/// after it.
pub proof fn law_request_holds_instruction_and_input(a: AlpacaView)
    ensures
        a.input.len() == 0 ==> request(a) == a.instruction,
        a.input.len() > 0 ==> {
            let n = a.instruction.len() as int;
            &&& request(a).len() == n + 1 + a.input.len()
            &&& request(a).take(n) == a.instruction
            &&& request(a)[n] == '\n'
            &&& request(a).skip(n + 1) == a.input
        },
{
    let n = a.instruction.len() as int;
    if a.input.len() > 0 {
        assert(request(a).take(n) =~= a.instruction);
        assert(request(a).skip(n + 1) =~= a.input);
    }
}

/// A conversation made of an instruction record has two turns: the user's request, and the output
/// as the model's words.
pub proof fn law_exchange_has_two_turns(a: AlpacaView, user: Seq<char>, model: Seq<char>)
    ensures
        exchange(a, user, model).len() == 2,
        exchange(a, user, model)[0].speaker == user,
        exchange(a, user, model)[0].words == request(a),
        exchange(a, user, model)[1].speaker == model,
        exchange(a, user, model)[1].words == a.output,
{
}

/// What a speaker says first.
proof fn lemma_first_words(turns: Seq<Turn>, speaker: Seq<char>, i: int)
    requires
        0 <= i <= turns.len(),
        forall|k: int| 0 <= k < i ==> (#[trigger] turns[k]).speaker != speaker,
        i < turns.len() ==> turns[i].speaker == speaker,
    ensures
        first_words(turns, speaker) == if i < turns.len() {
            turns[i].words
        } else {
            Seq::empty()
        },
    decreases turns.len(),
{
    if i > 0 {
        let rest = turns.drop_first();
        assert(turns[0].speaker != speaker);
        assert forall|k: int| 0 <= k < i - 1 implies (#[trigger] rest[k]).speaker != speaker by {
            assert(turns[k + 1].speaker != speaker);
        }
        lemma_first_words(rest, speaker, i - 1);
    }
}

/// The instruction record made of a conversation has no input; its instruction is what the user
/// says first, its output what the model says first, and a part whose speaker never speaks is
/// empty. Here `i` and `j` are where the user and the model first speak, or the end.
pub proof fn law_condensed_takes_first_words(
    turns: Seq<Turn>,
    user: Seq<char>,
    model: Seq<char>,
    i: int,
    j: int,
)
    requires
        0 <= i <= turns.len(),
        forall|k: int| 0 <= k < i ==> (#[trigger] turns[k]).speaker != user,
        i < turns.len() ==> turns[i].speaker == user,
        0 <= j <= turns.len(),
        forall|k: int| 0 <= k < j ==> (#[trigger] turns[k]).speaker != model,
        j < turns.len() ==> turns[j].speaker == model,
    ensures
        condensed(turns, user, model).input.len() == 0,
        i < turns.len() ==> condensed(turns, user, model).instruction == turns[i].words,
        i == turns.len() ==> condensed(turns, user, model).instruction.len() == 0,
        j < turns.len() ==> condensed(turns, user, model).output == turns[j].words,
        j == turns.len() ==> condensed(turns, user, model).output.len() == 0,
{
    lemma_first_words(turns, user, i);
    lemma_first_words(turns, model, j);
}

/// Between the chat formats each turn stays in its place with its words; `human` becomes `user` and
/// `gpt` becomes `assistant`, and the other way round, and every other speaker stays.
pub proof fn law_turns_are_renamed_one_by_one(turns: Seq<Turn>, i: int)
    requires
        0 <= i < turns.len(),
    ensures
        with_chatml_roles(turns).len() == turns.len(),
        with_chatml_roles(turns)[i].words == turns[i].words,
        turns[i].speaker == "human"@ ==> with_chatml_roles(turns)[i].speaker == "user"@,
        turns[i].speaker == "gpt"@ ==> with_chatml_roles(turns)[i].speaker == "assistant"@,
        turns[i].speaker != "human"@ && turns[i].speaker != "gpt"@ ==> with_chatml_roles(
            turns,
        )[i].speaker == turns[i].speaker,
        with_sharegpt_speakers(turns).len() == turns.len(),
        with_sharegpt_speakers(turns)[i].words == turns[i].words,
        turns[i].speaker == "user"@ ==> with_sharegpt_speakers(turns)[i].speaker == "human"@,
        turns[i].speaker == "assistant"@ ==> with_sharegpt_speakers(turns)[i].speaker == "gpt"@,
        turns[i].speaker != "user"@ && turns[i].speaker != "assistant"@ ==> with_sharegpt_speakers(
            turns,
        )[i].speaker == turns[i].speaker,
{
    lemma_speakers_differ();
}

} // verus!
