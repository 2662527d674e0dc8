use vstd::prelude::*;
use crate::json::{
    get, get_opt, json_get, json_get_opt, json_str, json_u64, str_of, u64_of, JsonValue,
};
use crate::binary64::Binary64;
use crate::text::{clone_opt, opt_text, str_eq};

verus! {

/// Token counts of a session, each present when known.
#[derive(Clone, Copy, Debug, PartialEq, Eq, Structural)]
pub struct TokenUsage {
    pub used: Option<u64>,
    pub total: Option<u64>,
    pub input: Option<u64>,
    pub output: Option<u64>,
    pub cached: Option<u64>,
    pub reasoning: Option<u64>,
}

/// The cost of a session: its amount, its currency, and the parts of it
/// spent on input and on output.
pub struct CostInfo {
    pub total: Option<Binary64>,
    pub currency: Option<String>,
    pub input_cost: Option<Binary64>,
    pub output_cost: Option<Binary64>,
}

/// What the status line shows of a session.
pub struct SessionData {
    pub model: Option<String>,
    pub token_usage: Option<TokenUsage>,
    pub cost: Option<CostInfo>,
    pub session_id: Option<String>,
    pub cwd: Option<String>,
    pub permission: Option<String>,
    /// Seconds since the session started.
    pub elapsed_seconds: Option<Binary64>,
    pub git_branch: Option<String>,
    pub git_dirty: Option<bool>,
    pub turn: Option<u32>,
    /// Names of input fields that this library does not know.
    pub extra: Vec<String>,
}

impl SessionData {
    /// Whether nothing is known of the session.
    pub open spec fn is_empty(&self) -> bool {
        &&& self.model is None
        &&& self.token_usage is None
        &&& self.cost is None
        &&& self.session_id is None
        &&& self.cwd is None
        &&& self.permission is None
        &&& self.elapsed_seconds is None
        &&& self.git_branch is None
        &&& self.git_dirty is None
        &&& self.turn is None
        &&& self.extra@.len() == 0
    }
}

impl Default for SessionData {
    fn default() -> (r: Self)
        ensures
            r.is_empty(),
    {
        SessionData {
            model: None,
            token_usage: None,
            cost: None,
            session_id: None,
            cwd: None,
            permission: None,
            elapsed_seconds: None,
            git_branch: None,
            git_dirty: None,
            turn: None,
            extra: Vec::new(),
        }
    }
}

/// One line of a Codex session log: its timestamp, its type and its payload.
pub struct CodexLine {
    pub timestamp: Option<String>,
    pub event_type: String,
    pub payload: JsonValue,
}

/// An event of a Codex session log.
pub enum CodexEvent {
    SessionMeta {
        id: String,
        cwd: Option<String>,
        cli_version: Option<String>,
        model_provider: Option<String>,
    },
    TurnContext {
        turn_id: String,
        model: Option<String>,
        approval_policy: Option<String>,
        cwd: Option<String>,
    },
    TaskStarted { turn_id: String, model_context_window: Option<u64> },
    TokenCount {
        input_tokens: Option<u64>,
        cached_input_tokens: Option<u64>,
        output_tokens: Option<u64>,
        reasoning_output_tokens: Option<u64>,
        model_context_window: Option<u64>,
    },
    TaskComplete { turn_id: String },
    Unknown,
}

/// A Codex event, with its strings as character sequences.
pub enum EventModel {
    SessionMeta {
        id: Seq<char>,
        cwd: Option<Seq<char>>,
        cli_version: Option<Seq<char>>,
        model_provider: Option<Seq<char>>,
    },
    TurnContext {
        turn_id: Seq<char>,
        model: Option<Seq<char>>,
        approval_policy: Option<Seq<char>>,
        cwd: Option<Seq<char>>,
    },
    TaskStarted { turn_id: Seq<char>, model_context_window: Option<u64> },
    TokenCount {
        input_tokens: Option<u64>,
        cached_input_tokens: Option<u64>,
        output_tokens: Option<u64>,
        reasoning_output_tokens: Option<u64>,
        model_context_window: Option<u64>,
    },
    TaskComplete { turn_id: Seq<char> },
    Unknown,
}

impl View for CodexEvent {
    type V = EventModel;

    open spec fn view(&self) -> EventModel {
        match self {
            CodexEvent::SessionMeta { id, cwd, cli_version, model_provider } =>
                EventModel::SessionMeta {
                id: id@,
                cwd: opt_text(*cwd),
                cli_version: opt_text(*cli_version),
                model_provider: opt_text(*model_provider),
            },
            CodexEvent::TurnContext { turn_id, model, approval_policy, cwd } =>
                EventModel::TurnContext {
                turn_id: turn_id@,
                model: opt_text(*model),
                approval_policy: opt_text(*approval_policy),
                cwd: opt_text(*cwd),
            },
            CodexEvent::TaskStarted { turn_id, model_context_window } => EventModel::TaskStarted {
                turn_id: turn_id@,
                model_context_window: *model_context_window,
            },
            CodexEvent::TokenCount {
                input_tokens,
                cached_input_tokens,
                output_tokens,
                reasoning_output_tokens,
                model_context_window,
            } => EventModel::TokenCount {
                input_tokens: *input_tokens,
                cached_input_tokens: *cached_input_tokens,
                output_tokens: *output_tokens,
                reasoning_output_tokens: *reasoning_output_tokens,
                model_context_window: *model_context_window,
            },
            CodexEvent::TaskComplete { turn_id } => EventModel::TaskComplete { turn_id: turn_id@ },
            CodexEvent::Unknown => EventModel::Unknown,
        }
    }
}

/// The optional string member `key` of the payload `p`.
pub open spec fn member_text(p: JsonValue, key: Seq<char>) -> Option<Seq<char>> {
    json_str(json_get(p, key))
}

/// The token figures of a token count's `info`: those of the current turn
/// (`last_token_usage`) when they are there as an object, else those of the
/// whole session (`total_token_usage`).
pub open spec fn token_figures(info: Option<JsonValue>) -> Option<JsonValue> {
    match json_get_opt(info, "last_token_usage"@) {
        Some(JsonValue::Object(es)) => Some(JsonValue::Object(es)),
        _ => json_get_opt(info, "total_token_usage"@),
    }
}

/// The event that a log line of type `kind` with payload `p` records; none when
/// a required identifier is missing or is not a string.
pub open spec fn codex_event(kind: Seq<char>, p: JsonValue) -> Option<EventModel> {
    if kind == "session_meta"@ {
        match member_text(p, "id"@) {
            Some(id) => Some(
                EventModel::SessionMeta {
                    id,
                    cwd: member_text(p, "cwd"@),
                    cli_version: member_text(p, "cli_version"@),
                    model_provider: member_text(p, "model_provider"@),
                },
            ),
            None => None,
        }
    } else if kind == "turn_context"@ {
        match member_text(p, "turn_id"@) {
            Some(turn_id) => Some(
                EventModel::TurnContext {
                    turn_id,
                    model: member_text(p, "model"@),
                    approval_policy: member_text(p, "approval_policy"@),
                    cwd: member_text(p, "cwd"@),
                },
            ),
            None => None,
        }
    } else if kind == "event_msg"@ {
        let msg = member_text(p, "type"@);
        if msg == Some("task_started"@) {
            match member_text(p, "turn_id"@) {
                Some(turn_id) => Some(
                    EventModel::TaskStarted {
                        turn_id,
                        model_context_window: json_u64(json_get(p, "model_context_window"@)),
                    },
                ),
                None => None,
            }
        } else if msg == Some("token_count"@) {
            let info = json_get(p, "info"@);
            let usage = token_figures(info);
            Some(
                EventModel::TokenCount {
                    input_tokens: json_u64(json_get_opt(usage, "input_tokens"@)),
                    cached_input_tokens: json_u64(json_get_opt(usage, "cached_input_tokens"@)),
                    output_tokens: json_u64(json_get_opt(usage, "output_tokens"@)),
                    reasoning_output_tokens: json_u64(
                        json_get_opt(usage, "reasoning_output_tokens"@),
                    ),
                    model_context_window: json_u64(json_get_opt(info, "model_context_window"@)),
                },
            )
        } else if msg == Some("task_complete"@) {
            match member_text(p, "turn_id"@) {
                Some(turn_id) => Some(EventModel::TaskComplete { turn_id }),
                None => None,
            }
        } else {
            Some(EventModel::Unknown)
        }
    } else {
        Some(EventModel::Unknown)
    }
}

/// The view of an optional event.
pub open spec fn opt_event(e: Option<CodexEvent>) -> Option<EventModel> {
    match e {
        Some(x) => Some(x@),
        None => None,
    }
}

/// The event that one log line records.
pub fn parse_codex_line(raw: &CodexLine) -> (r: Option<CodexEvent>)
    ensures
        opt_event(r) == codex_event(raw.event_type@, raw.payload),
{
    let p = &raw.payload;
    let kind = raw.event_type.as_str();
    if str_eq(kind, "session_meta") {
        let id = str_of(get(p, "id"));
        match id {
            Some(id) => Some(
                CodexEvent::SessionMeta {
                    id,
                    cwd: str_of(get(p, "cwd")),
                    cli_version: str_of(get(p, "cli_version")),
                    model_provider: str_of(get(p, "model_provider")),
                },
            ),
            None => None,
        }
    } else if str_eq(kind, "turn_context") {
        let turn_id = str_of(get(p, "turn_id"));
        match turn_id {
            Some(turn_id) => Some(
                CodexEvent::TurnContext {
                    turn_id,
                    model: str_of(get(p, "model")),
                    approval_policy: str_of(get(p, "approval_policy")),
                    cwd: str_of(get(p, "cwd")),
                },
            ),
            None => None,
        }
    } else if str_eq(kind, "event_msg") {
        let msg = str_of(get(p, "type"));
        let is_started = match &msg {
            Some(m) => str_eq(m.as_str(), "task_started"),
            None => false,
        };
        let is_count = match &msg {
            Some(m) => str_eq(m.as_str(), "token_count"),
            None => false,
        };
        let is_complete = match &msg {
            Some(m) => str_eq(m.as_str(), "task_complete"),
            None => false,
        };
        if is_started {
            match str_of(get(p, "turn_id")) {
                Some(turn_id) => Some(
                    CodexEvent::TaskStarted {
                        turn_id,
                        model_context_window: u64_of(get(p, "model_context_window")),
                    },
                ),
                None => None,
            }
        } else if is_count {
            let info = get(p, "info");
            let usage = match get_opt(info, "last_token_usage") {
                Some(JsonValue::Object(es)) => get_opt(info, "last_token_usage"),
                _ => get_opt(info, "total_token_usage"),
            };
            Some(
                CodexEvent::TokenCount {
                    input_tokens: u64_of(get_opt(usage, "input_tokens")),
                    cached_input_tokens: u64_of(get_opt(usage, "cached_input_tokens")),
                    output_tokens: u64_of(get_opt(usage, "output_tokens")),
                    reasoning_output_tokens: u64_of(get_opt(usage, "reasoning_output_tokens")),
                    model_context_window: u64_of(get_opt(info, "model_context_window")),
                },
            )
        } else if is_complete {
            match str_of(get(p, "turn_id")) {
                Some(turn_id) => Some(CodexEvent::TaskComplete { turn_id }),
                None => None,
            }
        } else {
            Some(CodexEvent::Unknown)
        }
    } else {
        Some(CodexEvent::Unknown)
    }
}

/// A session of which nothing is known yet.
pub open spec fn fresh_session() -> SessionModel {
    SessionModel {
        session_id: None,
        cwd: None,
        cli_version: None,
        model_provider: None,
        model: None,
        approval_policy: None,
        model_context_window: None,
        input_tokens: None,
        cached_input_tokens: None,
        output_tokens: None,
        reasoning_output_tokens: None,
        turn_count: 0,
        seen_turn_ids: Seq::empty(),
    }
}

/// The state of a Codex session, built from its events.
pub struct CodexSession {
    pub session_id: Option<String>,
    pub cwd: Option<String>,
    pub cli_version: Option<String>,
    pub model_provider: Option<String>,
    pub model: Option<String>,
    pub approval_policy: Option<String>,
    pub model_context_window: Option<u64>,
    pub input_tokens: Option<u64>,
    pub cached_input_tokens: Option<u64>,
    pub output_tokens: Option<u64>,
    pub reasoning_output_tokens: Option<u64>,
    pub turn_count: u32,
    /// The turn identifiers seen so far, in the order they were first seen.
    pub seen_turn_ids: Vec<String>,
}

/// A Codex session state, with its strings as character sequences.
pub struct SessionModel {
    pub session_id: Option<Seq<char>>,
    pub cwd: Option<Seq<char>>,
    pub cli_version: Option<Seq<char>>,
    pub model_provider: Option<Seq<char>>,
    pub model: Option<Seq<char>>,
    pub approval_policy: Option<Seq<char>>,
    pub model_context_window: Option<u64>,
    pub input_tokens: Option<u64>,
    pub cached_input_tokens: Option<u64>,
    pub output_tokens: Option<u64>,
    pub reasoning_output_tokens: Option<u64>,
    pub turn_count: u32,
    /// The turn identifiers seen so far, in the order they were first seen.
    pub seen_turn_ids: Seq<Seq<char>>,
}

impl View for CodexSession {
    type V = SessionModel;

    open spec fn view(&self) -> SessionModel {
        SessionModel {
            session_id: opt_text(self.session_id),
            cwd: opt_text(self.cwd),
            cli_version: opt_text(self.cli_version),
            model_provider: opt_text(self.model_provider),
            model: opt_text(self.model),
            approval_policy: opt_text(self.approval_policy),
            model_context_window: self.model_context_window,
            input_tokens: self.input_tokens,
            cached_input_tokens: self.cached_input_tokens,
            output_tokens: self.output_tokens,
            reasoning_output_tokens: self.reasoning_output_tokens,
            turn_count: self.turn_count,
            seen_turn_ids: self.seen_turn_ids@.map_values(|t: String| t@),
        }
    }
}

/// `new` when it is present, else `old`.
pub open spec fn keep<T>(new: Option<T>, old: Option<T>) -> Option<T> {
    if new is Some {
        new
    } else {
        old
    }
}

/// Counts the turn `id` once: the first time it is seen.
pub open spec fn note_turn(s: SessionModel, id: Seq<char>) -> SessionModel {
    if s.seen_turn_ids.contains(id) {
        s
    } else {
        SessionModel {
            seen_turn_ids: s.seen_turn_ids.push(id),
            turn_count: (s.turn_count + 1) as u32,
            ..s
        }
    }
}

/// The session state after one event: identity and settings take the values
/// that the event carries, token counts are replaced by the ones it reports,
/// and a turn is counted the first time its identifier appears.
pub open spec fn apply_model(s: SessionModel, e: EventModel) -> SessionModel {
    match e {
        EventModel::SessionMeta { id, cwd, cli_version, model_provider } => SessionModel {
            session_id: Some(id),
            cwd: keep(cwd, s.cwd),
            cli_version: keep(cli_version, s.cli_version),
            model_provider: keep(model_provider, s.model_provider),
            ..s
        },
        EventModel::TurnContext { turn_id, model, approval_policy, cwd } => note_turn(
            SessionModel {
                model: keep(model, s.model),
                approval_policy: keep(approval_policy, s.approval_policy),
                cwd: keep(cwd, s.cwd),
                ..s
            },
            turn_id,
        ),
        EventModel::TaskStarted { turn_id, model_context_window } => note_turn(
            SessionModel {
                model_context_window: keep(model_context_window, s.model_context_window),
                ..s
            },
            turn_id,
        ),
        EventModel::TokenCount {
            input_tokens,
            cached_input_tokens,
            output_tokens,
            reasoning_output_tokens,
            model_context_window,
        } => SessionModel {
            input_tokens: keep(input_tokens, s.input_tokens),
            cached_input_tokens: keep(cached_input_tokens, s.cached_input_tokens),
            output_tokens: keep(output_tokens, s.output_tokens),
            reasoning_output_tokens: keep(reasoning_output_tokens, s.reasoning_output_tokens),
            model_context_window: keep(model_context_window, s.model_context_window),
            ..s
        },
        EventModel::TaskComplete { .. } => s,
        EventModel::Unknown => s,
    }
}

/// Whether applying `e` to `s` counts a new turn.
pub open spec fn counts_new_turn(s: SessionModel, e: EventModel) -> bool {
    match e {
        EventModel::TurnContext { turn_id, .. } => !s.seen_turn_ids.contains(turn_id),
        EventModel::TaskStarted { turn_id, .. } => !s.seen_turn_ids.contains(turn_id),
        _ => false,
    }
}

/// A well-formed session: each turn identifier seen once, and the turn count
/// is the number of them.
pub open spec fn session_wf(s: SessionModel) -> bool {
    &&& s.seen_turn_ids.no_duplicates()
    &&& s.turn_count as int == s.seen_turn_ids.len()
}

/// A copy of an optional string when it is present, else `old`.
fn keep_text(new: &Option<String>, old: &Option<String>) -> (r: Option<String>)
    ensures
        opt_text(r) == keep(opt_text(*new), opt_text(*old)),
{
    if new.is_some() {
        clone_opt(new)
    } else {
        clone_opt(old)
    }
}

impl CodexSession {
    /// A session of which nothing is known yet.
    pub fn new() -> (r: Self)
        ensures
            r@ == fresh_session(),
    {
        let r = CodexSession {
            session_id: None,
            cwd: None,
            cli_version: None,
            model_provider: None,
            model: None,
            approval_policy: None,
            model_context_window: None,
            input_tokens: None,
            cached_input_tokens: None,
            output_tokens: None,
            reasoning_output_tokens: None,
            turn_count: 0,
            seen_turn_ids: Vec::new(),
        };
        assert(r@.seen_turn_ids =~= Seq::<Seq<char>>::empty());
        r
    }

    /// Whether the turn `id` has been seen.
    fn has_seen(&self, id: &String) -> (r: bool)
        ensures
            r == self@.seen_turn_ids.contains(id@),
    {
        let n = self.seen_turn_ids.len();
        for i in 0..n
            invariant
                n == self.seen_turn_ids@.len(),
                forall|j: int| 0 <= j < i ==> self.seen_turn_ids@[j]@ != id@,
        {
            if self.seen_turn_ids[i] == *id {
                assert(self@.seen_turn_ids[i as int] == id@);
                return true;
            }
        }
        proof {
            if self@.seen_turn_ids.contains(id@) {
                let k = choose|k: int| 0 <= k < self@.seen_turn_ids.len() && self@.seen_turn_ids[k] == id@;
                assert(self.seen_turn_ids@[k]@ == id@);
            }
        }
        false
    }

    /// Counts the turn `id` if it has not been seen.
    fn note_turn(&mut self, id: &String)
        requires
            !old(self)@.seen_turn_ids.contains(id@) ==> old(self)@.turn_count < u32::MAX,
        ensures
            final(self)@ == note_turn(old(self)@, id@),
    {
        if !self.has_seen(id) {
            self.seen_turn_ids.push(id.clone());
            self.turn_count = self.turn_count + 1;
            assert(self@.seen_turn_ids =~= old(self)@.seen_turn_ids.push(id@));
        }
    }

    /// Whether `event` can be applied without the turn count overflowing.
    pub fn can_apply(&self, event: &CodexEvent) -> (r: bool)
        ensures
            r == (counts_new_turn(self@, event@) ==> self@.turn_count < u32::MAX),
    {
        match event {
            CodexEvent::TurnContext { turn_id, .. } => self.has_seen(turn_id) || self.turn_count
                < u32::MAX,
            CodexEvent::TaskStarted { turn_id, .. } => self.has_seen(turn_id) || self.turn_count
                < u32::MAX,
            _ => true,
        }
    }

    /// Applies one event to the session state.
    pub fn apply_event(&mut self, event: &CodexEvent)
        requires
            counts_new_turn(old(self)@, event@) ==> old(self)@.turn_count < u32::MAX,
        ensures
            final(self)@ == apply_model(old(self)@, event@),
    {
        match event {
            CodexEvent::SessionMeta { id, cwd, cli_version, model_provider } => {
                self.session_id = Some(id.clone());
                self.cwd = keep_text(cwd, &self.cwd);
                self.cli_version = keep_text(cli_version, &self.cli_version);
                self.model_provider = keep_text(model_provider, &self.model_provider);
            },
            CodexEvent::TurnContext { turn_id, model, approval_policy, cwd } => {
                self.model = keep_text(model, &self.model);
                self.approval_policy = keep_text(approval_policy, &self.approval_policy);
                self.cwd = keep_text(cwd, &self.cwd);
                self.note_turn(turn_id);
            },
            CodexEvent::TaskStarted { turn_id, model_context_window } => {
                if model_context_window.is_some() {
                    self.model_context_window = *model_context_window;
                }
                self.note_turn(turn_id);
            },
            CodexEvent::TokenCount {
                input_tokens,
                cached_input_tokens,
                output_tokens,
                reasoning_output_tokens,
                model_context_window,
            } => {
                if input_tokens.is_some() {
                    self.input_tokens = *input_tokens;
                }
                if cached_input_tokens.is_some() {
                    self.cached_input_tokens = *cached_input_tokens;
                }
                if output_tokens.is_some() {
                    self.output_tokens = *output_tokens;
                }
                if reasoning_output_tokens.is_some() {
                    self.reasoning_output_tokens = *reasoning_output_tokens;
                }
                if model_context_window.is_some() {
                    self.model_context_window = *model_context_window;
                }
            },
            CodexEvent::TaskComplete { .. } => {},
            CodexEvent::Unknown => {},
        }
    }
}


/// The value of an optional count, zero when absent.
pub open spec fn count_or_zero(n: Option<u64>) -> nat {
    match n {
        Some(v) => v as nat,
        None => 0,
    }
}

/// The tokens used by a session: input, output and reasoning tokens, those known.
pub open spec fn tokens_used(s: SessionModel) -> nat {
    count_or_zero(s.input_tokens) + count_or_zero(s.output_tokens) + count_or_zero(
        s.reasoning_output_tokens,
    )
}

/// The token usage that a session shows: present when some tokens were used
/// or the context window is known.
pub open spec fn token_usage_of(s: SessionModel) -> Option<TokenUsage> {
    let used = tokens_used(s);
    if used > 0 || s.model_context_window is Some {
        Some(
            TokenUsage {
                used: if used > 0 { Some(used as u64) } else { None },
                total: s.model_context_window,
                input: s.input_tokens,
                output: s.output_tokens,
                cached: s.cached_input_tokens,
                reasoning: s.reasoning_output_tokens,
            },
        )
    } else {
        None
    }
}

fn add_count(acc: u64, n: Option<u64>) -> (r: u64)
    requires
        acc + count_or_zero(n) <= u64::MAX,
    ensures
        r == acc + count_or_zero(n),
{
    match n {
        Some(v) => acc + v,
        None => acc,
    }
}

impl CodexSession {
    /// What the status line shows of this session, `elapsed_seconds` after it started.
    pub fn to_session_data(&self, elapsed_seconds: Option<Binary64>) -> (r: SessionData)
        requires
            tokens_used(self@) <= u64::MAX,
        ensures
            opt_text(r.model) == self@.model,
            r.token_usage == token_usage_of(self@),
            r.cost is None,
            opt_text(r.session_id) == self@.session_id,
            opt_text(r.cwd) == self@.cwd,
            opt_text(r.permission) == self@.approval_policy,
            r.elapsed_seconds == elapsed_seconds,
            r.git_branch is None,
            r.git_dirty is None,
            r.turn == if self@.turn_count > 0 {
                Some(self@.turn_count)
            } else {
                None
            },
            r.extra@.len() == 0,
    {
        let used = add_count(
            add_count(add_count(0, self.input_tokens), self.output_tokens),
            self.reasoning_output_tokens,
        );
        let token_usage = if used > 0 || self.model_context_window.is_some() {
            Some(
                TokenUsage {
                    used: if used > 0 {
                        Some(used)
                    } else {
                        None
                    },
                    total: self.model_context_window,
                    input: self.input_tokens,
                    output: self.output_tokens,
                    cached: self.cached_input_tokens,
                    reasoning: self.reasoning_output_tokens,
                },
            )
        } else {
            None
        };
        SessionData {
            model: clone_opt(&self.model),
            token_usage,
            cost: None,
            session_id: clone_opt(&self.session_id),
            cwd: clone_opt(&self.cwd),
            permission: clone_opt(&self.approval_policy),
            elapsed_seconds,
            git_branch: None,
            git_dirty: None,
            turn: if self.turn_count > 0 {
                Some(self.turn_count)
            } else {
                None
            },
            extra: Vec::new(),
        }
    }
}

impl CodexSession {
    /// Whether the known token counts add up within `u64`.
    pub fn tokens_fit(&self) -> (r: bool)
        ensures
            r == (tokens_used(self@) <= u64::MAX),
    {
        let a = match self.input_tokens { Some(v) => v as u128, None => 0 };
        let b = match self.output_tokens { Some(v) => v as u128, None => 0 };
        let c = match self.reasoning_output_tokens { Some(v) => v as u128, None => 0 };
        a + b + c <= u64::MAX as u128
    }
}

/// The latest turn context decides the session's settings: a model, an
/// approval policy or a directory that it carries replaces the one the
/// session had, and one that it leaves out keeps it.
pub proof fn law_turn_context_settings(
    s: SessionModel,
    turn_id: Seq<char>,
    model: Option<Seq<char>>,
    approval_policy: Option<Seq<char>>,
    cwd: Option<Seq<char>>,
)
    ensures
        ({
            let t = apply_model(s, EventModel::TurnContext { turn_id, model, approval_policy, cwd });
            &&& forall|m: Seq<char>| model == Some(m) ==> t.model == Some(m)
            &&& model is None ==> t.model == s.model
            &&& forall|a: Seq<char>| approval_policy == Some(a) ==> t.approval_policy == Some(a)
            &&& approval_policy is None ==> t.approval_policy == s.approval_policy
            &&& forall|c: Seq<char>| cwd == Some(c) ==> t.cwd == Some(c)
            &&& cwd is None ==> t.cwd == s.cwd
        }),
{
}

/// A `turn_context` line whose payload has a string `turn_id` is the turn
/// context of that turn, and its model, approval policy and directory are the
/// payload's string members of those names (none where a member is missing
/// or is not a string).
pub proof fn law_turn_context_line(p: JsonValue, turn_id: String)
    requires
        json_get(p, "turn_id"@) == Some(JsonValue::Str(turn_id)),
    ensures
        codex_event("turn_context"@, p) == Some(
            EventModel::TurnContext {
                turn_id: turn_id@,
                model: json_str(json_get(p, "model"@)),
                approval_policy: json_str(json_get(p, "approval_policy"@)),
                cwd: json_str(json_get(p, "cwd"@)),
            },
        ),
{
    reveal_strlit("turn_context");
    reveal_strlit("session_meta");
    assert("turn_context"@ != "session_meta"@) by {
        assert("turn_context"@[0] != "session_meta"@[0]);
    }
}

/// Applying the same event twice is applying it once; the second time never
/// counts a new turn, so a replayed event never needs room in the count.
pub proof fn law_apply_idempotent(s: SessionModel, e: EventModel)
    ensures
        apply_model(apply_model(s, e), e) == apply_model(s, e),
        !counts_new_turn(apply_model(s, e), e),
{
    match e {
        EventModel::TurnContext { turn_id, .. } => {
            let t = apply_model(s, e);
            assert(t.seen_turn_ids.contains(turn_id)) by {
                if !s.seen_turn_ids.contains(turn_id) {
                    assert(t.seen_turn_ids[t.seen_turn_ids.len() - 1] == turn_id);
                }
            }
        },
        EventModel::TaskStarted { turn_id, .. } => {
            let t = apply_model(s, e);
            assert(t.seen_turn_ids.contains(turn_id)) by {
                if !s.seen_turn_ids.contains(turn_id) {
                    assert(t.seen_turn_ids[t.seen_turn_ids.len() - 1] == turn_id);
                }
            }
        },
        _ => {},
    }
}

/// Every event keeps a session well formed: each turn is counted once.
pub proof fn law_apply_keeps_turns_counted_once(s: SessionModel, e: EventModel)
    requires
        session_wf(s),
        counts_new_turn(s, e) ==> s.turn_count < u32::MAX,
    ensures
        session_wf(apply_model(s, e)),
        apply_model(s, e).turn_count == s.turn_count + if counts_new_turn(s, e) {
            1int
        } else {
            0int
        },
{
    match e {
        EventModel::TurnContext { turn_id, .. } => {
            if !s.seen_turn_ids.contains(turn_id) {
                let t = s.seen_turn_ids.push(turn_id);
                assert forall|i: int, j: int|
                    0 <= i < t.len() && 0 <= j < t.len() && i != j implies t[i] != t[j] by {
                    if i == t.len() - 1 {
                        assert(s.seen_turn_ids[j] == t[j]);
                    } else if j == t.len() - 1 {
                        assert(s.seen_turn_ids[i] == t[i]);
                    }
                }
            }
        },
        EventModel::TaskStarted { turn_id, .. } => {
            if !s.seen_turn_ids.contains(turn_id) {
                let t = s.seen_turn_ids.push(turn_id);
                assert forall|i: int, j: int|
                    0 <= i < t.len() && 0 <= j < t.len() && i != j implies t[i] != t[j] by {
                    if i == t.len() - 1 {
                        assert(s.seen_turn_ids[j] == t[j]);
                    } else if j == t.len() - 1 {
                        assert(s.seen_turn_ids[i] == t[i]);
                    }
                }
            }
        },
        _ => {},
    }
}

/// Events that carry nothing of the status (a finished task, an unknown
/// event) leave the session unchanged.
pub proof fn law_quiet_events(s: SessionModel, turn_id: Seq<char>)
    ensures
        apply_model(s, EventModel::TaskComplete { turn_id }) == s,
        apply_model(s, EventModel::Unknown) == s,
{
}

/// A new session is well formed and has no turns.
pub proof fn law_new_session_wf()
    ensures
        session_wf(fresh_session()),
        fresh_session().turn_count == 0,
{
}

/// The session state after the events `es`, in order.
pub open spec fn apply_all(s: SessionModel, es: Seq<EventModel>) -> SessionModel
    decreases es.len(),
{
    if es.len() == 0 {
        s
    } else {
        apply_model(apply_all(s, es.drop_last()), es.last())
    }
}

/// The turn that `e` names: that of a turn context or of a started task.
pub open spec fn event_turn(e: EventModel) -> Option<Seq<char>> {
    match e {
        EventModel::TurnContext { turn_id, .. } => Some(turn_id),
        EventModel::TaskStarted { turn_id, .. } => Some(turn_id),
        _ => None,
    }
}

/// The distinct turn identifiers that the events `es` name.
pub open spec fn turn_ids(es: Seq<EventModel>) -> Set<Seq<char>>
    decreases es.len(),
{
    if es.len() == 0 {
        Set::empty()
    } else {
        match event_turn(es.last()) {
            Some(t) => turn_ids(es.drop_last()).insert(t),
            None => turn_ids(es.drop_last()),
        }
    }
}

/// The turn identifiers of finitely many events are finitely many.
proof fn lemma_turn_ids_finite(es: Seq<EventModel>)
    ensures
        turn_ids(es).finite(),
    decreases es.len(),
{
    broadcast use vstd::set::group_set_axioms;

    if es.len() > 0 {
        lemma_turn_ids_finite(es.drop_last());
    }
}

/// From a new session, whatever the events, the turn count is the number of
/// distinct turn identifiers that turn contexts and started tasks name, and
/// those are the turns seen, each once (given fewer than `2^32` of them).
pub proof fn law_turns_are_distinct_ids(es: Seq<EventModel>)
    requires
        turn_ids(es).len() <= u32::MAX,
    ensures
        apply_all(fresh_session(), es).turn_count == turn_ids(es).len(),
        apply_all(fresh_session(), es).seen_turn_ids.to_set() == turn_ids(es),
        session_wf(apply_all(fresh_session(), es)),
    decreases es.len(),
{
    broadcast use vstd::set::group_set_axioms;

    if es.len() == 0 {
        assert(fresh_session().seen_turn_ids.to_set() =~= Set::<Seq<char>>::empty());
    } else {
        let pre = es.drop_last();
        let e = es.last();
        lemma_turn_ids_finite(pre);
        assert(turn_ids(pre).len() <= turn_ids(es).len());
        law_turns_are_distinct_ids(pre);
        let s = apply_all(fresh_session(), pre);
        assert(apply_all(fresh_session(), es) == apply_model(s, e));
        match event_turn(e) {
            Some(t) => {
                assert(s.seen_turn_ids.contains(t) == turn_ids(pre).contains(t)) by {
                    assert(s.seen_turn_ids.to_set().contains(t) == s.seen_turn_ids.contains(t));
                }
                if !s.seen_turn_ids.contains(t) {
                    assert(s.turn_count < u32::MAX);
                    s.seen_turn_ids.lemma_push_to_set_commute(t);
                }
                assert(counts_new_turn(s, e) == !s.seen_turn_ids.contains(t));
                law_apply_keeps_turns_counted_once(s, e);
                assert(apply_model(s, e).seen_turn_ids.to_set() =~= turn_ids(es));
            },
            None => {
                assert(!counts_new_turn(s, e));
                law_apply_keeps_turns_counted_once(s, e);
                assert(apply_model(s, e).seen_turn_ids == s.seen_turn_ids);
            },
        }
    }
}

} // verus!
