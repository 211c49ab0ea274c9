use serde_json::Value;
use ssd_llm::agent::{
    write_result_prompt, Agent, AgentConfig, AgentResult, Event, Request, ToolInvocation,
};
use ssd_llm::slots::{arguments_or_empty, ArgsSlot, FreeSlot, NameSlot, NAME_STEPS};

#[test]
fn agent_config_defaults_are_sane() {
    let cfg = AgentConfig::default();
    assert_eq!(cfg.max_turns, 5);
    assert_eq!(cfg.trigger, "<<tool_call>>");
    assert!(!cfg.working_dir.is_empty());
    assert!(cfg.max_tokens_per_phase > 0);
}

fn scan(pieces: &[&str]) -> ArgsSlot {
    let mut slot = ArgsSlot::new(100);
    for piece in pieces {
        if slot.wants_more() {
            slot.feed(piece);
        }
    }
    slot
}

fn collected(slot: &ArgsSlot) -> String {
    slot.raw.iter().collect()
}

#[test]
fn json_brace_counting_closes_correctly() {
    let input = "{\"query\": \"fn main\", \"path\": \"src/\"}";
    let slot = scan(&[input]);
    assert!(slot.started);
    assert_eq!(slot.depth, 0);
    assert!(serde_json::from_str::<Value>(&collected(&slot)).is_ok());
}

#[test]
fn json_brace_counting_handles_nested() {
    let input = "{\"a\": {\"b\": 1}, \"c\": 2}";
    let slot = scan(&[input]);
    let v: Value = serde_json::from_str(&collected(&slot)).expect("valid JSON");
    assert_eq!(v["a"]["b"], 2 - 1);
    assert_eq!(v["c"], 2);
}

#[test]
fn tool_invocation_debug_format_works() {
    let inv = ToolInvocation {
        tool: "grep".to_string(),
        args: "{\"query\":\"fn main\"}".to_string(),
        result: "{\"matches\":[]}".to_string(),
    };
    let s = format!("{:?}", inv);
    assert!(s.contains("grep"));
}

#[test]
fn agent_result_accumulates_text_and_invocations() {
    let result = AgentResult {
        text: "here is the answer".to_string(),
        invocations: vec![ToolInvocation {
            tool: "grep".to_string(),
            args: "{}".to_string(),
            result: "{}".to_string(),
        }],
    };
    assert_eq!(result.text, "here is the answer");
    assert_eq!(result.invocations.len(), 1);
    assert_eq!(result.invocations[0].tool, "grep");
}

#[test]
fn arguments_end_with_the_outermost_object() {
    let whole = scan(&["x {\"a\": {\"b\": 1}} trailing } {"]);
    assert_eq!(collected(&whole), "x {\"a\": {\"b\": 1}}");
    let cut = scan(&["x {\"a", "\": {\"b\"", ": 1}", "} trail", "ing } {"]);
    assert_eq!(collected(&cut), collected(&whole));
    assert!(!cut.wants_more());
    assert_eq!(cut.finish(), "{}", "text before the object is not JSON");
    assert_eq!(scan(&["{ \"b\" : 2, \"a\":\t1 }"]).finish(), "{\"a\":1,\"b\":2}");
    assert_eq!(scan(&["nothing here"]).finish(), "{}");
    assert_eq!(scan(&["{\"a\": "]).finish(), "{}");
    assert_eq!(collected(&scan(&["} {", "}"])), "} {}");
    assert_eq!(arguments_or_empty(Some("{\"k\":1}".to_string())), "{\"k\":1}");
    assert_eq!(arguments_or_empty(None), "{}");
}

#[test]
fn arguments_take_a_limited_number_of_pieces() {
    let mut slot = ArgsSlot::new(1);
    for _ in 0..4 {
        assert!(slot.wants_more());
        slot.feed("{");
    }
    assert!(!slot.wants_more());
}

#[test]
fn free_text_ends_with_the_trigger() {
    let mut slot = FreeSlot::new(vec![7, 8]);
    assert!(!slot.feed(1, "Let me "));
    assert!(!slot.feed(7, "<<tool"));
    assert!(slot.feed(8, "_call>>"));
    assert_eq!(slot.text, "Let me <<tool_call>>");
}

fn names() -> Vec<String> {
    vec!["grep".to_string(), "read_chunk".to_string(), "grep".to_string()]
}

#[test]
fn a_name_is_complete_with_its_tokens() {
    let mut slot = NameSlot::new(names(), vec![vec![1, 2], vec![1, 3, 4], vec![1, 2]]);
    assert_eq!(slot.allowed(), Some(vec![1]));
    assert_eq!(slot.feed(1), None);
    assert_eq!(slot.allowed(), Some(vec![2, 3]));
    assert_eq!(slot.feed(3), None);
    assert_eq!(slot.feed(4).as_deref(), Some("read_chunk"));
    let mut other = NameSlot::new(names(), vec![vec![1, 2], vec![1, 3, 4], vec![1, 2]]);
    other.feed(1);
    assert_eq!(other.feed(2).as_deref(), Some("grep"));
}

#[test]
fn a_name_slot_gives_up() {
    let mut stray = NameSlot::new(names(), vec![vec![1, 2], vec![1, 3], vec![5]]);
    assert_eq!(stray.feed(9), None);
    assert_eq!(stray.allowed(), None);
    let mut long = NameSlot::new(vec!["x".to_string()], vec![vec![1; 40]]);
    for _ in 0..NAME_STEPS {
        assert_eq!(long.allowed(), Some(vec![1]));
        long.feed(1);
    }
    assert_eq!(long.allowed(), None);
}

fn start(max_turns: usize) -> Agent {
    let config = AgentConfig { max_turns, ..Default::default() };
    Agent::start("P", &config, &[1], &["grep"]).unwrap()
}

fn text(t: &str, fired: bool) -> Event {
    Event::Text(t.to_string(), fired)
}

#[test]
fn starting_needs_a_trigger_and_tools() {
    let config = AgentConfig::default();
    assert_eq!(
        Agent::start("P", &config, &[], &[]).unwrap_err(),
        "agent: trigger '<<tool_call>>' tokenizes to nothing"
    );
    assert_eq!(
        Agent::start("P", &config, &[1], &[]).unwrap_err(),
        "agent: ToolRegistry has no tools registered"
    );
}

#[test]
fn a_turn_calls_a_tool_and_shows_its_result() {
    let agent = start(2);
    assert!(matches!(agent.request(), Request::Free(p) if p == "P"));
    let agent = agent.take(text("look<<tool_call>>", true));
    assert!(
        matches!(agent.request(), Request::Name(p) if p == "Plook<<tool_call>>{\"tool\": \"")
    );
    let agent = agent.take(Event::Named(Some("grep".to_string())));
    assert!(matches!(
        agent.request(),
        Request::Args(p) if p == "Plook<<tool_call>>{\"tool\": \"grep\", \"args\": "
    ));
    let agent = agent.take(Event::Given("{\"query\":\"q\"}".to_string()));
    assert!(matches!(
        agent.request(),
        Request::Call(t, a) if t == "grep" && a == "{\"query\":\"q\"}"
    ));
    let agent = agent.take(Event::Returned(Ok("{\"matches\":[]}".to_string())));
    let prompt = "Plook<<tool_call>>{\"tool\": \"grep\", \"args\": {\"query\":\"q\"}}\n<tool_result>\n{\n  \"matches\": []\n}\n</tool_result>\n";
    assert!(matches!(agent.request(), Request::Free(p) if p == prompt));
    let agent = agent.take(text(" done", false));
    assert!(matches!(agent.request(), Request::Last(p) if p == prompt));
    let agent = agent.take(text(" really", false));
    assert!(matches!(agent.request(), Request::Nothing));
    let result = agent.result();
    assert_eq!(result.text, "look<<tool_call>> done really");
    assert_eq!(result.invocations.len(), 1);
    assert_eq!(result.invocations[0].args, "{\"query\":\"q\"}");
    assert_eq!(result.invocations[0].result, "{\"matches\":[]}");
}

#[test]
fn an_error_is_told_in_an_object() {
    let agent = start(1)
        .take(text("a", true))
        .take(Event::Named(Some("grep".to_string())))
        .take(Event::Given("{}".to_string()))
        .take(Event::Returned(Err("no \"such\" file".to_string())));
    match agent.request() {
        Request::Last(p) => {
            assert!(p.contains("\n<tool_result>\n{\n  \"error\": \"no \\\"such\\\" file\"\n}\n"))
        }
        _ => panic!("there was only one turn"),
    }
    assert_eq!(agent.invocations[0].result, "{\"error\":\"no \\\"such\\\" file\"}");
}

#[test]
fn a_turn_without_a_name_keeps_its_text() {
    let agent = start(2).take(text("a", true)).take(Event::Named(None));
    assert!(matches!(agent.request(), Request::Free(p) if p == "Pa"));
    let agent = agent.take(text("b", true)).take(Event::Named(None));
    assert!(matches!(agent.request(), Request::Last(p) if p == "Pab"));
    assert!(agent.result().invocations.is_empty());
}

#[test]
fn an_agent_without_turns_only_answers() {
    let agent = start(0);
    assert!(matches!(agent.request(), Request::Last(p) if p == "P"));
    let agent = agent.take(text("answer", true));
    assert_eq!(agent.result().text, "answer");
}

#[test]
fn an_agent_ends_within_its_turns() {
    let mut agent = start(3);
    let mut events = 0;
    loop {
        agent = match agent.request() {
            Request::Free(p) => {
                assert!(p.starts_with("P"));
                agent.take(text("t", true))
            }
            Request::Name(_) => agent.take(Event::Named(Some("grep".to_string()))),
            Request::Args(_) => agent.take(Event::Given("{}".to_string())),
            Request::Call(_, _) => agent.take(Event::Returned(Ok("1".to_string()))),
            Request::Last(_) => agent.take(text("end", false)),
            Request::Nothing => break,
        };
        events += 1;
    }
    assert_eq!(events, 13);
    let result = agent.result();
    assert_eq!(result.invocations.len(), 3);
    assert_eq!(result.text, "tttend");
}

#[test]
fn an_unexpected_event_changes_nothing() {
    let agent = start(1).take(Event::Given("{}".to_string()));
    assert!(matches!(agent.request(), Request::Free(p) if p == "P"));
}

#[test]
fn the_prompt_after_a_call() {
    assert_eq!(
        write_result_prompt("p", "f", "t", "{}", "R"),
        "pf{\"tool\": \"t\", \"args\": {}}\n<tool_result>\nR\n</tool_result>\n"
    );
}

#[test]
fn braces_inside_strings_count_for_nothing() {
    let object = "{\"q\": \"}\", \"r\": {\"s\": \"{\\\"}\\\\\"}}";
    let slot = scan(&[object, " and } more"]);
    assert_eq!(collected(&slot), object);
    assert_eq!(slot.finish(), "{\"q\":\"}\",\"r\":{\"s\":\"{\\\"}\\\\\"}}");
    let pieces: Vec<String> = object.chars().map(|c| c.to_string()).collect();
    let mut cut = ArgsSlot::new(100);
    for piece in &pieces {
        assert!(cut.wants_more());
        cut.feed(piece);
    }
    assert!(!cut.wants_more());
    assert_eq!(collected(&cut), object);
    assert_eq!(scan(&["{\"a\": \"}", "\"} tail"]).finish(), "{\"a\":\"}\"}");
}
