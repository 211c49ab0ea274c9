//! An agent loop: the model generates text until it asks for a tool, the tool
//! is called, and its result goes into the next prompt.
//!
//! The loop is a state machine. `Agent::request` says what to generate or to
//! execute next, and `Agent::take` takes the outcome.
use crate::json::{self, literal, pretty};
use crate::text::{self, string_copy};
use vstd::prelude::*;

verus! {

/// Settings of an agent.
#[derive(Debug)]
pub struct AgentConfig {
    /// How often tools are called at most.
    pub max_turns: usize,
    /// How many tokens each generation takes at most.
    pub max_tokens_per_phase: usize,
    /// Root directory of tools that read files.
    pub working_dir: String,
    /// Text by which the model asks for a tool.
    pub trigger: String,
}

impl Default for AgentConfig {
    fn default() -> (r: Self)
        ensures
            r.max_turns == 5,
            r.max_tokens_per_phase == 512,
            r.working_dir@ == "."@,
            r.trigger@ == "<<tool_call>>"@,
    {
        AgentConfig {
            max_turns: 5,
            max_tokens_per_phase: 512,
            working_dir: string_copy("."),
            trigger: string_copy("<<tool_call>>"),
        }
    }
}

/// A call of a tool, with arguments and result as JSON text.
#[derive(Debug)]
pub struct ToolInvocation {
    pub tool: String,
    pub args: String,
    pub result: String,
}

/// What a call says.
#[verifier::ext_equal]
pub struct InvocationData {
    pub tool: Seq<char>,
    pub args: Seq<char>,
    pub result: Seq<char>,
}

impl View for ToolInvocation {
    type V = InvocationData;

    open spec fn view(&self) -> InvocationData {
        InvocationData { tool: self.tool@, args: self.args@, result: self.result@ }
    }
}

/// The views of a list of calls.
pub open spec fn invocation_views(list: Seq<ToolInvocation>) -> Seq<InvocationData> {
    list.map_values(|i: ToolInvocation| i@)
}

/// What an agent has done: all text that the model generated freely, and the
/// calls of tools in order.
#[derive(Debug)]
pub struct AgentResult {
    pub text: String,
    pub invocations: Vec<ToolInvocation>,
}

/// Where an agent stands.
#[derive(Debug)]
pub enum Stage {
    /// The model is to generate text.
    Free,
    /// The model asked for a tool after this text, and is to name it.
    Naming(String),
    /// After this text the model named a tool, and is to give its arguments.
    Arguing(String, String),
    /// After this text the model called a tool with these arguments.
    Calling(String, String, String),
    /// The model is to generate the last text.
    Last,
    /// All is done.
    Done,
}

/// What a stage says.
pub enum StageData {
    Free,
    Naming(Seq<char>),
    Arguing(Seq<char>, Seq<char>),
    Calling(Seq<char>, Seq<char>, Seq<char>),
    Last,
    Done,
}

impl View for Stage {
    type V = StageData;

    open spec fn view(&self) -> StageData {
        match self {
            Stage::Free => StageData::Free,
            Stage::Naming(free) => StageData::Naming(free@),
            Stage::Arguing(free, tool) => StageData::Arguing(free@, tool@),
            Stage::Calling(free, tool, args) => StageData::Calling(free@, tool@, args@),
            Stage::Last => StageData::Last,
            Stage::Done => StageData::Done,
        }
    }
}

/// What is to be done next.
#[derive(Debug)]
pub enum Request {
    /// Generate text from a prompt until the trigger.
    Free(String),
    /// Generate the name of a tool from a prompt.
    Name(String),
    /// Generate arguments from a prompt.
    Args(String),
    /// Call a tool with arguments.
    Call(String, String),
    /// Generate text from a prompt, with the full budget.
    Last(String),
    /// Nothing.
    Nothing,
}

/// What came of a request.
#[derive(Debug)]
pub enum Event {
    /// Text was generated, up to the trigger or not.
    Text(String, bool),
    /// A tool was named, or none could be.
    Named(Option<String>),
    /// Arguments were given as JSON text.
    Given(String),
    /// A call gave a result as JSON text, or an error.
    Returned(Result<String, String>),
}

/// What an event says.
pub enum EventData {
    Text(Seq<char>, bool),
    Named(Option<Seq<char>>),
    Given(Seq<char>),
    Returned(Result<Seq<char>, Seq<char>>),
}

impl View for Event {
    type V = EventData;

    open spec fn view(&self) -> EventData {
        match self {
            Event::Text(t, fired) => EventData::Text(t@, *fired),
            Event::Named(Some(n)) => EventData::Named(Some(n@)),
            Event::Named(None) => EventData::Named(None),
            Event::Given(a) => EventData::Given(a@),
            Event::Returned(Ok(r)) => EventData::Returned(Ok(r@)),
            Event::Returned(Err(e)) => EventData::Returned(Err(e@)),
        }
    }
}

/// The prompt for the name of a tool.
pub open spec fn name_prompt(prompt: Seq<char>, free: Seq<char>) -> Seq<char> {
    prompt + free + "{\"tool\": \""@
}

/// The prompt for the arguments of a call.
pub open spec fn args_prompt(prompt: Seq<char>, free: Seq<char>, tool: Seq<char>) -> Seq<char> {
    prompt + free + "{\"tool\": \""@ + tool + "\", \"args\": "@
}

/// The prompt after a call: the arguments and the indented result follow the
/// prompt for the arguments.
pub open spec fn result_prompt(
    prompt: Seq<char>,
    free: Seq<char>,
    tool: Seq<char>,
    args: Seq<char>,
    shown: Seq<char>,
) -> Seq<char> {
    args_prompt(prompt, free, tool) + args + "}\n<tool_result>\n"@ + shown
        + "\n</tool_result>\n"@
}

/// Writes the prompt for the arguments of a call.
fn write_args_prompt(prompt: &str, free: &str, tool: &str) -> (r: String)
    ensures
        r@ == args_prompt(prompt@, free@, tool@),
{
    let mut r = string_copy(prompt);
    r.append(free);
    r.append("{\"tool\": \"");
    r.append(tool);
    r.append("\", \"args\": ");
    r
}

/// Writes the prompt after a call whose result is shown as the given text.
pub fn write_result_prompt(
    prompt: &str,
    free: &str,
    tool: &str,
    args: &str,
    shown: &str,
) -> (r: String)
    ensures
        r@ == result_prompt(prompt@, free@, tool@, args@, shown@),
{
    let mut r = write_args_prompt(prompt, free, tool);
    r.append(args);
    r.append("}\n<tool_result>\n");
    r.append(shown);
    r.append("\n</tool_result>\n");
    r
}

/// The JSON text that stands for the outcome of a call: an error is told in an
/// object.
pub open spec fn result_json(outcome: Result<Seq<char>, Seq<char>>) -> Seq<char> {
    match outcome {
        Ok(value) => value,
        Err(e) => "{\"error\":"@ + json::json_literal(e) + "}"@,
    }
}

fn result_text(outcome: Result<String, String>) -> (r: String)
    ensures
        r@ == result_json(
            match outcome {
                Ok(v) => Ok(v@),
                Err(e) => Err(e@),
            },
        ),
{
    match outcome {
        Ok(v) => v,
        Err(e) => {
            let mut r = string_copy("{\"error\":");
            r.append(literal(e.as_str()).as_str());
            r.append("}");
            r
        },
    }
}

/// How a result is shown to the model: indented, or not at all where it is not
/// JSON.
pub open spec fn shown(result: Seq<char>) -> Seq<char> {
    match json::json_pretty(result) {
        Some(t) => t,
        None => seq![],
    }
}

/// An agent.
#[derive(Debug)]
pub struct Agent {
    pub prompt: String,
    pub text: String,
    pub invocations: Vec<ToolInvocation>,
    /// Turns that have not begun.
    pub turns: usize,
    pub stage: Stage,
}

/// What an agent says.
#[verifier::ext_equal]
pub struct AgentData {
    pub prompt: Seq<char>,
    pub text: Seq<char>,
    pub invocations: Seq<InvocationData>,
    pub turns: nat,
    pub stage: StageData,
}

/// The stage between turns.
pub open spec fn between(turns: nat) -> StageData {
    if turns > 0 {
        StageData::Free
    } else {
        StageData::Last
    }
}

impl View for Agent {
    type V = AgentData;

    open spec fn view(&self) -> AgentData {
        AgentData {
            prompt: self.prompt@,
            text: self.text@,
            invocations: invocation_views(self.invocations@),
            turns: self.turns as nat,
            stage: self.stage@,
        }
    }
}

impl AgentData {
    /// Turns left wherever text is to be generated in a turn.
    pub open spec fn valid(self) -> bool {
        self.stage is Free ==> self.turns > 0
    }

    /// The event answers the request of this stage.
    pub open spec fn expects(self, event: EventData) -> bool {
        match self.stage {
            StageData::Free => event is Text,
            StageData::Naming(_) => event is Named,
            StageData::Arguing(_, _) => event is Given,
            StageData::Calling(_, _, _) => event is Returned,
            StageData::Last => event is Text,
            StageData::Done => false,
        }
    }

    /// The agent after an event. An event that answers no request changes
    /// nothing.
    pub open spec fn after(self, event: EventData) -> AgentData {
        match (self.stage, event) {
            (StageData::Free, EventData::Text(t, fired)) => AgentData {
                text: self.text + t,
                turns: (self.turns - 1) as nat,
                stage: if fired {
                    StageData::Naming(t)
                } else {
                    StageData::Last
                },
                ..self
            },
            (StageData::Naming(free), EventData::Named(Some(tool))) => AgentData {
                stage: StageData::Arguing(free, tool),
                ..self
            },
            (StageData::Naming(free), EventData::Named(None)) => AgentData {
                prompt: self.prompt + free,
                stage: between(self.turns),
                ..self
            },
            (StageData::Arguing(free, tool), EventData::Given(args)) => AgentData {
                stage: StageData::Calling(free, tool, args),
                ..self
            },
            (StageData::Calling(free, tool, args), EventData::Returned(outcome)) => {
                let result = result_json(outcome);
                AgentData {
                    prompt: result_prompt(self.prompt, free, tool, args, shown(result)),
                    invocations: self.invocations.push(InvocationData { tool, args, result }),
                    stage: between(self.turns),
                    ..self
                }
            },
            (StageData::Last, EventData::Text(t, _)) => AgentData {
                text: self.text + t,
                stage: StageData::Done,
                ..self
            },
            _ => self,
        }
    }
}

/// Message for a trigger without tokens.
pub open spec fn empty_trigger(trigger: Seq<char>) -> Seq<char> {
    "agent: trigger '"@ + trigger + "' tokenizes to nothing"@
}

impl Agent {
    /// An agent that has done nothing. The trigger needs tokens, and there must
    /// be a tool.
    pub fn start(
        initial_prompt: &str,
        config: &AgentConfig,
        trigger_ids: &[u32],
        tool_names: &[&'static str],
    ) -> (r: Result<Agent, String>)
        ensures
            match r {
                Ok(agent) => {
                    &&& trigger_ids@.len() > 0 && tool_names@.len() > 0
                    &&& agent@ == initial(initial_prompt@, config.max_turns as nat)
                },
                Err(e) => if trigger_ids@.len() == 0 {
                    e@ == empty_trigger(config.trigger@)
                } else {
                    tool_names@.len() == 0 && e@ == "agent: ToolRegistry has no tools registered"@
                },
            },
    {
        if trigger_ids.len() == 0 {
            let mut m = string_copy("agent: trigger '");
            m.append(config.trigger.as_str());
            m.append("' tokenizes to nothing");
            return Err(m);
        }
        if tool_names.len() == 0 {
            return Err(string_copy("agent: ToolRegistry has no tools registered"));
        }
        let agent = Agent {
            prompt: string_copy(initial_prompt),
            text: String::new(),
            invocations: Vec::new(),
            turns: config.max_turns,
            stage: next_stage(config.max_turns),
        };
        assert(agent@ =~= initial(initial_prompt@, config.max_turns as nat));
        Ok(agent)
    }

    /// What is to be done next.
    pub fn request(&self) -> (r: Request)
        ensures
            match (self.stage@, r) {
                (StageData::Free, Request::Free(p)) => p@ == self.prompt@,
                (StageData::Naming(free), Request::Name(p)) => p@ == name_prompt(
                    self.prompt@,
                    free,
                ),
                (StageData::Arguing(free, tool), Request::Args(p)) => p@ == args_prompt(
                    self.prompt@,
                    free,
                    tool,
                ),
                (StageData::Calling(_, tool, args), Request::Call(t, a)) => t@ == tool && a@
                    == args,
                (StageData::Last, Request::Last(p)) => p@ == self.prompt@,
                (StageData::Done, Request::Nothing) => true,
                _ => false,
            },
    {
        match &self.stage {
            Stage::Free => Request::Free(string_copy(self.prompt.as_str())),
            Stage::Naming(free) => {
                let mut p = string_copy(self.prompt.as_str());
                p.append(free.as_str());
                p.append("{\"tool\": \"");
                Request::Name(p)
            },
            Stage::Arguing(free, tool) => Request::Args(
                write_args_prompt(self.prompt.as_str(), free.as_str(), tool.as_str()),
            ),
            Stage::Calling(_, tool, args) => Request::Call(
                string_copy(tool.as_str()),
                string_copy(args.as_str()),
            ),
            Stage::Last => Request::Last(string_copy(self.prompt.as_str())),
            Stage::Done => Request::Nothing,
        }
    }

    /// Takes the outcome of the request.
    pub fn take(self, event: Event) -> (r: Agent)
        requires
            self@.valid(),
        ensures
            r@ == self@.after(event@),
            r@.valid(),
    {
        let ghost before = self@;
        let ghost said = event@;
        let Agent { prompt, text, invocations, turns, stage } = self;
        let mut prompt = prompt;
        let mut text = text;
        let mut invocations = invocations;
        let mut turns: usize = turns;
        let stage = match (stage, event) {
            (Stage::Free, Event::Text(t, fired)) => {
                text.append(t.as_str());
                turns = turns - 1;
                if fired {
                    Stage::Naming(t)
                } else {
                    Stage::Last
                }
            },
            (Stage::Naming(free), Event::Named(Some(tool))) => Stage::Arguing(free, tool),
            (Stage::Naming(free), Event::Named(None)) => {
                prompt.append(free.as_str());
                next_stage(turns)
            },
            (Stage::Arguing(free, tool), Event::Given(args)) => Stage::Calling(free, tool, args),
            (Stage::Calling(free, tool, args), Event::Returned(outcome)) => {
                let result = result_text(outcome);
                let shown_text = match pretty(result.as_str()) {
                    Some(t) => t,
                    None => String::new(),
                };
                assert(shown_text@ == shown(result@));
                prompt = write_result_prompt(
                    prompt.as_str(),
                    free.as_str(),
                    tool.as_str(),
                    args.as_str(),
                    shown_text.as_str(),
                );
                let ghost earlier = invocations@;
                let invocation = ToolInvocation { tool, args, result };
                invocations.push(invocation);
                assert(invocation_views(invocations@) == invocation_views(earlier).push(
                    invocation@,
                ));
                next_stage(turns)
            },
            (Stage::Last, Event::Text(t, _)) => {
                text.append(t.as_str());
                Stage::Done
            },
            (stage, _) => stage,
        };
        let r = Agent { prompt, text, invocations, turns, stage };
        assert(r@ =~= before.after(said));
        r
    }

    /// What the agent has done.
    pub fn result(self) -> (r: AgentResult)
        ensures
            r.text@ == self@.text,
            invocation_views(r.invocations@) == self@.invocations,
    {
        AgentResult { text: self.text, invocations: self.invocations }
    }
}

fn next_stage(turns: usize) -> (r: Stage)
    ensures
        r@ == between(turns as nat),
{
    if turns > 0 {
        Stage::Free
    } else {
        Stage::Last
    }
}

/// An agent that has done nothing.
pub open spec fn initial(prompt: Seq<char>, max_turns: nat) -> AgentData {
    AgentData {
        prompt,
        text: seq![],
        invocations: seq![],
        turns: max_turns,
        stage: between(max_turns),
    }
}

/// The agent after several events.
pub open spec fn after_all(agent: AgentData, events: Seq<EventData>) -> AgentData
    decreases events.len(),
{
    if events.len() == 0 {
        agent
    } else {
        after_all(agent, events.drop_last()).after(events.last())
    }
}

/// Every event answers the request before it.
pub open spec fn answers_all(agent: AgentData, events: Seq<EventData>) -> bool
    decreases events.len(),
{
    events.len() > 0 ==> answers_all(agent, events.drop_last()) && after_all(
        agent,
        events.drop_last(),
    ).expects(events.last())
}

/// The generated texts one after the other.
pub open spec fn generated(events: Seq<EventData>) -> Seq<char>
    decreases events.len(),
{
    if events.len() == 0 {
        seq![]
    } else {
        generated(events.drop_last()) + (match events.last() {
            EventData::Text(t, _) => t,
            _ => seq![],
        })
    }
}

/// How many events are still to come at most.
pub open spec fn steps_left(agent: AgentData) -> nat {
    let base = 4 * agent.turns;
    match agent.stage {
        StageData::Free => base + 1,
        StageData::Naming(_) => base + 4,
        StageData::Arguing(_, _) => base + 3,
        StageData::Calling(_, _, _) => base + 2,
        StageData::Last => 1,
        StageData::Done => 0,
    }
}

/// A turn that may still lead to a call.
pub open spec fn pending(stage: StageData) -> nat {
    match stage {
        StageData::Naming(_) => 1,
        StageData::Arguing(_, _) => 1,
        StageData::Calling(_, _, _) => 1,
        _ => 0,
    }
}

/// In every run the text is all that was generated, in order; the initial
/// prompt begins every prompt; there are no more calls than turns; and the run
/// ends: it is done after at most four events for each turn and one more.
pub proof fn lemma_agent_runs(prompt: Seq<char>, max_turns: nat, events: Seq<EventData>)
    requires
        answers_all(initial(prompt, max_turns), events),
    ensures
        ({
            let agent = after_all(initial(prompt, max_turns), events);
            &&& agent.valid()
            &&& agent.text == generated(events)
            &&& text::begins_with(agent.prompt, prompt)
            &&& agent.invocations.len() + agent.turns + pending(agent.stage) <= max_turns
            &&& events.len() + steps_left(agent) <= 4 * max_turns + 1
        }),
    decreases events.len(),
{
    let start = initial(prompt, max_turns);
    if events.len() > 0 {
        let init = events.drop_last();
        lemma_agent_runs(prompt, max_turns, init);
        let before = after_all(start, init);
        let agent = after_all(start, events);
        assert(before.prompt.take(prompt.len() as int) == prompt);
        assert(agent.prompt.take(before.prompt.len() as int) == before.prompt);
        assert(agent.prompt.take(prompt.len() as int) == before.prompt.take(prompt.len() as int));
        assert(agent.text == generated(events));
    } else {
        assert(prompt.take(prompt.len() as int) == prompt);
    }
}

/// A request to name a tool or to give arguments extends the prompt, and the
/// prompt after a call extends the one for its arguments: nothing that the
/// model has seen is changed.
pub proof fn lemma_prompts_extend(
    prompt: Seq<char>,
    free: Seq<char>,
    tool: Seq<char>,
    args: Seq<char>,
    shown: Seq<char>,
)
    ensures
        text::begins_with(name_prompt(prompt, free), prompt + free),
        text::begins_with(args_prompt(prompt, free, tool), name_prompt(prompt, free) + tool),
        text::begins_with(
            result_prompt(prompt, free, tool, args, shown),
            args_prompt(prompt, free, tool) + args,
        ),
{
    let named = name_prompt(prompt, free);
    let argued = args_prompt(prompt, free, tool);
    let told = result_prompt(prompt, free, tool, args, shown);
    assert(named.take((prompt + free).len() as int) == prompt + free);
    assert(argued.take((named + tool).len() as int) == named + tool);
    assert(told.take((argued + args).len() as int) == argued + args);
}

/// A turn in which a tool is called, told by its events: the model's text up to the
/// trigger, the tool, its arguments and the outcome. The prompt goes on with the
/// text, the call as JSON and the indented result; the text is kept; the call is
/// recorded; and the turn is used up.
pub proof fn lemma_turn_with_a_call(
    agent: AgentData,
    free: Seq<char>,
    tool: Seq<char>,
    args: Seq<char>,
    outcome: Result<Seq<char>, Seq<char>>,
)
    requires
        agent.valid(),
        agent.stage is Free,
    ensures
        ({
            let asked = agent.after(EventData::Text(free, true));
            let named = asked.after(EventData::Named(Some(tool)));
            let given = named.after(EventData::Given(args));
            let done = given.after(EventData::Returned(outcome));
            let result = match outcome {
                Ok(value) => value,
                Err(e) => "{\"error\":"@ + json::json_literal(e) + "}"@,
            };
            let shown = match json::json_pretty(result) {
                Some(t) => t,
                None => seq![],
            };
            &&& asked.stage is Naming && named.stage is Arguing
            &&& given.stage == StageData::Calling(free, tool, args)
            &&& asked.prompt == agent.prompt && named.prompt == agent.prompt && given.prompt
                == agent.prompt
            &&& done.text == agent.text + free
            &&& done.invocations == agent.invocations.push(InvocationData { tool, args, result })
            &&& done.turns == agent.turns - 1
            &&& done.stage is Free <==> agent.turns > 1
            &&& done.stage is Last <==> agent.turns == 1
            &&& done.prompt == agent.prompt + free + "{\"tool\": \""@ + tool + "\", \"args\": "@
                + args + "}\n<tool_result>\n"@ + shown + "\n</tool_result>\n"@
        }),
{
}

/// A turn without a call: text without the trigger leads to the last generation,
/// and a tool that could not be named leaves its text in the prompt and no call.
/// The last generation ends the run.
pub proof fn lemma_turn_without_a_call(agent: AgentData, free: Seq<char>, fired: bool)
    requires
        agent.valid(),
        agent.stage is Free,
    ensures
        ({
            let quiet = agent.after(EventData::Text(free, false));
            let refused = agent.after(EventData::Text(free, true)).after(EventData::Named(None));
            let last = quiet.after(EventData::Text(free, fired));
            &&& quiet.stage is Last && quiet.text == agent.text + free && quiet.prompt
                == agent.prompt && quiet.invocations == agent.invocations
            &&& refused.prompt == agent.prompt + free && refused.text == agent.text + free
                && refused.invocations == agent.invocations && refused.turns == agent.turns - 1
            &&& refused.stage is Free <==> agent.turns > 1
            &&& refused.stage is Last <==> agent.turns == 1
            &&& last.stage is Done && last.text == agent.text + free + free && last.invocations
                == agent.invocations
        }),
{
}

/// What an agent asks for follows its stage, and what it is told takes it on: an
/// agent starts with its prompt, no text, no calls and all its turns, where the
/// trigger has tokens and there is a tool, and else not at all.
pub proof fn lemma_agent_starts(
    prompt: &str,
    config: &AgentConfig,
    trigger: &[u32],
    names: &[&'static str],
    r: Result<Agent, String>,
)
    requires
        call_ensures(Agent::start, (prompt, config, trigger, names), r),
    ensures
        r is Ok <==> trigger@.len() > 0 && names@.len() > 0,
        r matches Err(e) ==> e@ == if trigger@.len() == 0 {
            "agent: trigger '"@ + config.trigger@ + "' tokenizes to nothing"@
        } else {
            "agent: ToolRegistry has no tools registered"@
        },
        r matches Ok(agent) ==> {
            &&& agent.prompt@ == prompt@
            &&& agent.text@.len() == 0
            &&& agent.invocations@.len() == 0
            &&& agent.turns == config.max_turns
            &&& agent.stage@ is Free <==> config.max_turns > 0
            &&& agent.stage@ is Last <==> config.max_turns == 0
        },
{
    match r {
        Ok(agent) => {
            let data = agent@;
            assert(data.invocations.len() == agent.invocations@.len());
        },
        Err(_) => {},
    }
}

/// The prompts of an agent: free text goes on from the prompt, a name behind the
/// opening of a call, and arguments behind the name. A call is made as it was given.
pub proof fn lemma_requests_follow_the_stage(agent: &Agent, r: Request)
    requires
        call_ensures(Agent::request, (agent,), r),
    ensures
        agent.stage@ is Free ==> (r matches Request::Free(p) && p@ == agent.prompt@),
        agent.stage@ is Last ==> (r matches Request::Last(p) && p@ == agent.prompt@),
        agent.stage@ is Done ==> r is Nothing,
        agent.stage@ matches StageData::Naming(free) ==> (r matches Request::Name(p) && p@
            == agent.prompt@ + free + "{\"tool\": \""@),
        agent.stage@ matches StageData::Arguing(free, tool) ==> (r matches Request::Args(p) && p@
            == agent.prompt@ + free + "{\"tool\": \""@ + tool + "\", \"args\": "@),
        agent.stage@ matches StageData::Calling(_, tool, args) ==> (r matches Request::Call(t, a)
            && t@ == tool && a@ == args),
{
}

/// An agent takes an event as its stage says.
pub proof fn lemma_agent_takes(agent: Agent, event: Event, r: Agent)
    requires
        agent@.valid(),
        call_ensures(Agent::take, (agent, event), r),
    ensures
        r@ == agent@.after(event@),
        !agent@.expects(event@) ==> r@ == agent@,
{
}

/// The prompt that asks for arguments opens a call of the named tool behind the text,
/// and the one that tells a result closes it and shows the result between its marks.
pub proof fn lemma_prompts_are_written(
    prompt: &str,
    free: &str,
    tool: &str,
    args: &str,
    shown: &str,
    r: String,
)
    requires
        call_ensures(write_result_prompt, (prompt, free, tool, args, shown), r),
    ensures
        args_prompt(prompt@, free@, tool@) == prompt@ + free@ + "{\"tool\": \""@ + tool@
            + "\", \"args\": "@,
        r@ == prompt@ + free@ + "{\"tool\": \""@ + tool@ + "\", \"args\": "@ + args@
            + "}\n<tool_result>\n"@ + shown@ + "\n</tool_result>\n"@,
{
}

/// The result of a call is its value, or an object that holds the error.
pub proof fn lemma_outcome_is_told(value: Seq<char>)
    ensures
        result_json(Ok(value)) == value,
        result_json(Err(value)) == "{\"error\":"@ + json::json_literal(value) + "}"@,
{
}

} // verus!
