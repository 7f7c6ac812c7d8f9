//! One exchange with a connected client: the exclusive guard around the
//! pipeline, the response that goes on the wire, and the order in which a
//! connection passes through its states.

use crate::file_handler::{batch_result, is_wire_value, names_to_remove, FileHandler, ScannedFile};
use crate::processing_result::{json_pretty, texts, ProcessingResult};
use vstd::prelude::*;
use vstd::string::*;

verus! {

/// The longest response text, in bytes of UTF-8, that is handed to the encoder.
pub const MAX_RESPONSE_TEXT: usize = usize::MAX / 16;

/// What `encoding_rs` gives for a text encoded as windows-1251: the bytes, and
/// whether a character without a windows-1251 code had to be replaced.
pub uninterp spec fn windows_1251(text: Seq<char>) -> (Seq<u8>, bool);

/// `encoding_rs::Encoding::encode` on `WINDOWS_1251`: the encoded bytes and the
/// flag for replaced characters are functions of the text alone. The bound
/// keeps the encoder's buffer size computation within `usize`.
#[verifier::external_body]
fn windows_1251_encode(text: &str) -> (encoded: (Vec<u8>, bool))
    requires
        text.spec_bytes().len() < MAX_RESPONSE_TEXT,
    ensures
        encoded.0@ == windows_1251(text@).0,
        encoded.1 == windows_1251(text@).1,
{
    let (bytes, _, had_errors) = encoding_rs::WINDOWS_1251.encode(text);
    (bytes.into_owned(), had_errors)
}

/// The single message that a connection receives.
pub struct Response {
    /// The bytes to write to the connection.
    pub bytes: Vec<u8>,
    /// Whether some character had no windows-1251 code and was replaced.
    pub lossy: bool,
}

/// Encodes a response text for the wire. A text too long for the encoder gives `None`.
pub fn encode_response(json: &str) -> (response: Option<Response>)
    ensures
        response is Some <==> json.spec_bytes().len() < MAX_RESPONSE_TEXT,
        response matches Some(r) ==> r.bytes@ == windows_1251(json@).0 && r.lossy == windows_1251(
            json@,
        ).1,
{
    if json.as_bytes().len() < MAX_RESPONSE_TEXT {
        let (bytes, lossy) = windows_1251_encode(json);
        Some(Response { bytes, lossy })
    } else {
        None
    }
}

/// The message for the wire that a mapping gives: its pretty-printed JSON
/// object, encoded as windows-1251. There is none where the serializer gives
/// no text, or a text too long for the encoder.
pub open spec fn wire_message(members: Map<Seq<char>, Seq<char>>) -> Option<(Seq<u8>, bool)> {
    match json_pretty(members) {
        Some(json) => if vstd::utf8::encode_utf8(json).len() < MAX_RESPONSE_TEXT {
            Some(windows_1251(json))
        } else {
            None
        },
        None => None,
    }
}

/// Renders a batch result as the message for the wire: a pretty-printed JSON
/// object, encoded as windows-1251.
pub fn render_response(result: &ProcessingResult) -> (response: Option<Response>)
    ensures
        match response {
            Some(r) => wire_message(result@) == Some((r.bytes@, r.lossy)),
            None => wire_message(result@) is None,
        },
{
    match result.to_json() {
        Some(json) => encode_response(json.as_str()),
        None => None,
    }
}

/// The states of one connection.
#[derive(Clone, Copy, PartialEq, Eq, Structural, Debug)]
pub enum ConnectionState {
    /// The connection was accepted and waits for the guard.
    Accepted,
    /// The connection holds the guard; no batch has run yet.
    Locked,
    /// The batch has run.
    Processed,
    /// The response is being written.
    Delivering,
    /// The response was written and flushed; the delivered files are removed.
    Deleting,
    /// The response could not be delivered; no file is removed.
    Aborted,
    /// The guard is released and the connection is over.
    Closed,
}

/// The steps that move a connection from state to state.
pub enum Step {
    /// Ask for the guard.
    Lock,
    /// Run the batch.
    Process,
    /// Render the response; `rendered` says whether there is one to send.
    Respond { rendered: bool },
    /// Learn how the write and the flush ended.
    FinishDelivery { delivered: bool },
    /// Release the guard and end the connection.
    Close,
}

/// Whether a connection in this state holds the guard.
pub open spec fn holds_guard(state: ConnectionState) -> bool {
    state == ConnectionState::Locked || state == ConnectionState::Processed || state
        == ConnectionState::Delivering || state == ConnectionState::Deleting || state
        == ConnectionState::Aborted
}

/// The state after a step. A step that does not apply in a state leaves it
/// unchanged; asking for a guard that is held does too.
pub open spec fn next_state(state: ConnectionState, step: Step, guard_free: bool)
    -> ConnectionState {
    match (state, step) {
        (ConnectionState::Accepted, Step::Lock) => if guard_free {
            ConnectionState::Locked
        } else {
            ConnectionState::Accepted
        },
        (ConnectionState::Locked, Step::Process) => ConnectionState::Processed,
        (ConnectionState::Processed, Step::Respond { rendered }) => if rendered {
            ConnectionState::Delivering
        } else {
            ConnectionState::Aborted
        },
        (ConnectionState::Delivering, Step::FinishDelivery { delivered }) => if delivered {
            ConnectionState::Deleting
        } else {
            ConnectionState::Aborted
        },
        (ConnectionState::Deleting, Step::Close) => ConnectionState::Closed,
        (ConnectionState::Aborted, Step::Close) => ConnectionState::Closed,
        _ => state,
    }
}

/// Whether the guard is free after a connection in `state` took a step.
pub open spec fn guard_free_after(state: ConnectionState, step: Step, guard_free: bool) -> bool {
    match (state, step) {
        (ConnectionState::Accepted, Step::Lock) => false,
        (ConnectionState::Deleting, Step::Close) => true,
        (ConnectionState::Aborted, Step::Close) => true,
        _ => guard_free,
    }
}

/// The connections of one server and the guard they share are consistent: at
/// most one connection holds the guard, and the guard is free exactly if none does.
pub open spec fn exclusive(states: Seq<ConnectionState>, guard_free: bool) -> bool {
    &&& forall|i: int, j: int|
        0 <= i < j < states.len() ==> !(holds_guard(#[trigger] states[i]) && holds_guard(
            #[trigger] states[j],
        ))
    &&& guard_free <==> forall|i: int|
        0 <= i < states.len() ==> !holds_guard(#[trigger] states[i])
}

/// Batches never interleave. Connections that were all just accepted are
/// consistent with a free guard, and whatever step any one of them takes, they
/// stay consistent. So while one connection is anywhere between locking and
/// closing, no other connection can leave `Accepted`, and the next batch
/// starts only after the first connection has closed.
pub proof fn lemma_batches_never_interleave(
    states: Seq<ConnectionState>,
    guard_free: bool,
    mover: int,
    step: Step,
)
    requires
        exclusive(states, guard_free),
        0 <= mover < states.len(),
    ensures
        exclusive(
            states.update(mover, next_state(states[mover], step, guard_free)),
            guard_free_after(states[mover], step, guard_free),
        ),
        forall|other: int|
            0 <= other < states.len() && other != mover && holds_guard(#[trigger] states[other])
                ==> next_state(states[mover], step, guard_free) == states[mover] || !holds_guard(
                next_state(states[mover], step, guard_free),
            ),
{
    let after = states.update(mover, next_state(states[mover], step, guard_free));
    let free_after = guard_free_after(states[mover], step, guard_free);
    assert forall|i: int, j: int| 0 <= i < j < after.len() implies !(holds_guard(
        #[trigger] after[i],
    ) && holds_guard(#[trigger] after[j])) by {
        assert(holds_guard(states[i]) || holds_guard(states[j]) ==> !guard_free);
        assert(!(holds_guard(states[i]) && holds_guard(states[j])));
    }
    if free_after {
        assert forall|i: int| 0 <= i < after.len() implies !holds_guard(#[trigger] after[i]) by {
            if i != mover {
                if mover < i {
                    assert(!(holds_guard(states[mover]) && holds_guard(states[i])));
                } else {
                    assert(!(holds_guard(states[i]) && holds_guard(states[mover])));
                }
            }
        }
    } else {
        if guard_free {
            assert(holds_guard(after[mover]));
        } else {
            let holder = choose|i: int| 0 <= i < states.len() && holds_guard(#[trigger] states[i]);
            assert(holds_guard(after[holder]));
        }
    }
}

/// Connections that were all just accepted share a free guard consistently.
pub proof fn lemma_accepted_connections_are_consistent(states: Seq<ConnectionState>)
    requires
        forall|i: int| 0 <= i < states.len() ==> #[trigger] states[i] == ConnectionState::Accepted,
    ensures
        exclusive(states, true),
{
}

/// Files are removed only after a delivery that succeeded: a connection enters
/// `Deleting` from `Delivering` alone, and only when the write and the flush
/// went through. After `Aborted` there is no way to `Deleting`.
pub proof fn lemma_deletion_follows_delivery(state: ConnectionState, step: Step, guard_free: bool)
    ensures
        next_state(state, step, guard_free) == ConnectionState::Deleting ==> state
            == ConnectionState::Deleting || (state == ConnectionState::Delivering && step
            == (Step::FinishDelivery { delivered: true })),
        state == ConnectionState::Aborted || state == ConnectionState::Closed ==> next_state(
            state,
            step,
            guard_free,
        ) != ConnectionState::Deleting,
{
}

/// How far a connection has come: every step either leaves the state as it is
/// or moves it forward.
pub open spec fn progress(state: ConnectionState) -> nat {
    match state {
        ConnectionState::Accepted => 0,
        ConnectionState::Locked => 1,
        ConnectionState::Processed => 2,
        ConnectionState::Delivering => 3,
        ConnectionState::Deleting => 4,
        ConnectionState::Aborted => 4,
        ConnectionState::Closed => 5,
    }
}

/// A connection never goes back: a step that changes the state moves it
/// forward. So each connection runs at most one batch and sends at most one
/// response, and a closed connection stays closed.
pub proof fn lemma_states_only_advance(state: ConnectionState, step: Step, guard_free: bool)
    ensures
        next_state(state, step, guard_free) == state || progress(state) < progress(
            next_state(state, step, guard_free),
        ),
        next_state(ConnectionState::Closed, step, guard_free) == ConnectionState::Closed,
{
}

/// The listening address and the single pipeline that all connections share.
/// The pipeline is the guard: while a connection has it, the server has none.
pub struct Server {
    host: String,
    port: u16,
    pipeline: Option<FileHandler>,
}

impl Server {
    /// Whether the guard is free.
    pub closed spec fn is_free(&self) -> bool {
        self.pipeline is Some
    }

    /// The host to listen on.
    pub closed spec fn host_text(&self) -> Seq<char> {
        self.host@
    }

    /// The port to listen on.
    pub closed spec fn port_number(&self) -> u16 {
        self.port
    }

    /// The watched directory of the pipeline, while the guard is free.
    pub closed spec fn watched(&self) -> Option<Seq<char>> {
        match self.pipeline {
            Some(handler) => Some(handler.directory_text()),
            None => None,
        }
    }

    /// A server for an address and a watched directory, with the guard free.
    pub fn new(host: &str, port: u16, xml_directory: String) -> (server: Self)
        ensures
            server.host_text() == host@,
            server.port_number() == port,
            server.is_free(),
            server.watched() == Some(xml_directory@),
    {
        Server {
            host: String::from_str(host),
            port,
            pipeline: Some(FileHandler::new(xml_directory)),
        }
    }

    /// The host to listen on.
    pub fn host(&self) -> (host: &str)
        ensures
            host@ == self.host_text(),
    {
        self.host.as_str()
    }

    /// The port to listen on.
    pub fn port(&self) -> (port: u16)
        ensures
            port == self.port_number(),
    {
        self.port
    }

    /// Whether the guard is free.
    pub fn guard_is_free(&self) -> (free: bool)
        ensures
            free == self.is_free(),
    {
        self.pipeline.is_some()
    }
}

enum Phase {
    Accepted,
    Locked { handler: FileHandler },
    Processed { handler: FileHandler, result: ProcessingResult },
    Delivering { handler: FileHandler, result: ProcessingResult },
    Deleting { handler: FileHandler, result: ProcessingResult },
    Aborted { handler: FileHandler, result: ProcessingResult },
    Closed,
}

/// One accepted connection and where its exchange stands.
pub struct Connection {
    phase: Phase,
}

impl Connection {
    /// The state of the connection.
    pub closed spec fn state(&self) -> ConnectionState {
        match self.phase {
            Phase::Accepted => ConnectionState::Accepted,
            Phase::Locked { .. } => ConnectionState::Locked,
            Phase::Processed { .. } => ConnectionState::Processed,
            Phase::Delivering { .. } => ConnectionState::Delivering,
            Phase::Deleting { .. } => ConnectionState::Deleting,
            Phase::Aborted { .. } => ConnectionState::Aborted,
            Phase::Closed => ConnectionState::Closed,
        }
    }

    /// The batch result, once the batch has run; empty before that and
    /// after closing.
    pub closed spec fn result_map(&self) -> Map<Seq<char>, Seq<char>> {
        match self.phase {
            Phase::Processed { result, .. } => result@,
            Phase::Delivering { result, .. } => result@,
            Phase::Deleting { result, .. } => result@,
            Phase::Aborted { result, .. } => result@,
            _ => Map::empty(),
        }
    }

    /// The watched directory of the pipeline that the connection holds.
    pub closed spec fn watched(&self) -> Option<Seq<char>> {
        match self.phase {
            Phase::Locked { handler } => Some(handler.directory_text()),
            Phase::Processed { handler, .. } => Some(handler.directory_text()),
            Phase::Delivering { handler, .. } => Some(handler.directory_text()),
            Phase::Deleting { handler, .. } => Some(handler.directory_text()),
            Phase::Aborted { handler, .. } => Some(handler.directory_text()),
            _ => None,
        }
    }

    /// A connection holds a pipeline exactly in the states that hold the guard.
    pub proof fn lemma_pipeline_is_the_guard(self)
        ensures
            self.watched() is Some <==> holds_guard(self.state()),
    {
    }

    /// A connection that was just accepted.
    pub fn accepted() -> (connection: Self)
        ensures
            connection.state() == ConnectionState::Accepted,
            connection.result_map() == Map::<Seq<char>, Seq<char>>::empty(),
    {
        Connection { phase: Phase::Accepted }
    }

    /// The state of the connection.
    pub fn current_state(&self) -> (state: ConnectionState)
        ensures
            state == self.state(),
    {
        match &self.phase {
            Phase::Accepted => ConnectionState::Accepted,
            Phase::Locked { .. } => ConnectionState::Locked,
            Phase::Processed { .. } => ConnectionState::Processed,
            Phase::Delivering { .. } => ConnectionState::Delivering,
            Phase::Deleting { .. } => ConnectionState::Deleting,
            Phase::Aborted { .. } => ConnectionState::Aborted,
            Phase::Closed => ConnectionState::Closed,
        }
    }

    /// The pipeline, while the connection holds the guard.
    pub fn file_handler(&self) -> (handler: Option<&FileHandler>)
        ensures
            handler is Some <==> holds_guard(self.state()),
            handler matches Some(h) ==> Some(h.directory_text()) == self.watched(),
    {
        match &self.phase {
            Phase::Locked { handler } => Some(handler),
            Phase::Processed { handler, .. } => Some(handler),
            Phase::Delivering { handler, .. } => Some(handler),
            Phase::Deleting { handler, .. } => Some(handler),
            Phase::Aborted { handler, .. } => Some(handler),
            _ => None,
        }
    }

    /// The batch result, once the batch has run.
    pub fn result(&self) -> (result: Option<&ProcessingResult>)
        ensures
            result is Some <==> holds_guard(self.state()) && self.state()
                != ConnectionState::Locked,
            result matches Some(r) ==> r@ == self.result_map(),
    {
        match &self.phase {
            Phase::Processed { result, .. } => Some(result),
            Phase::Delivering { result, .. } => Some(result),
            Phase::Deleting { result, .. } => Some(result),
            Phase::Aborted { result, .. } => Some(result),
            _ => None,
        }
    }

    /// `Accepted` to `Locked`: takes the guard if it is free. Where it is held,
    /// or the connection is in another state, nothing changes.
    pub fn lock(self, server: &mut Server) -> (next: Connection)
        ensures
            next.state() == next_state(self.state(), Step::Lock, old(server).is_free()),
            final(server).is_free() == guard_free_after(
                self.state(),
                Step::Lock,
                old(server).is_free(),
            ),
            final(server).host_text() == old(server).host_text(),
            final(server).port_number() == old(server).port_number(),
            next.state() == self.state() ==> next == self && *final(server) == *old(server),
            next.state() != self.state() ==> next.watched() == old(server).watched(),
    {
        match self.phase {
            Phase::Accepted => match server.pipeline.take() {
                Some(handler) => Connection { phase: Phase::Locked { handler } },
                None => Connection { phase: Phase::Accepted },
            },
            other => Connection { phase: other },
        }
    }

    /// `Locked` to `Processed`: runs the batch over the scanned entries.
    pub fn process(self, files: &Vec<ScannedFile>) -> (next: Connection)
        ensures
            next.state() == next_state(self.state(), Step::Process, false),
            next.watched() == self.watched(),
            self.state() != ConnectionState::Locked ==> next == self,
            self.state() == ConnectionState::Locked ==> {
                &&& next.result_map() == batch_result(files@)
                &&& forall|name: Seq<char>| #[trigger]
                    next.result_map().contains_key(name) ==> is_wire_value(
                        next.result_map()[name],
                    )
            },
    {
        match self.phase {
            Phase::Locked { handler } => {
                let result = handler.process_files(files);
                Connection { phase: Phase::Processed { handler, result } }
            },
            other => Connection { phase: other },
        }
    }

    /// `Processed` to `Delivering`: renders the response to send. Where no
    /// response can be rendered the connection is `Aborted` instead.
    pub fn respond(self) -> (outcome: (Connection, Option<Response>))
        ensures
            outcome.0.state() == next_state(
                self.state(),
                (Step::Respond { rendered: outcome.1 is Some }),
                false,
            ),
            outcome.0.result_map() == self.result_map(),
            outcome.0.watched() == self.watched(),
            self.state() != ConnectionState::Processed ==> outcome.0 == self && outcome.1 is None,
            self.state() == ConnectionState::Processed ==> match outcome.1 {
                Some(r) => wire_message(self.result_map()) == Some((r.bytes@, r.lossy)),
                None => wire_message(self.result_map()) is None,
            },
    {
        match self.phase {
            Phase::Processed { handler, result } => {
                match render_response(&result) {
                    Some(response) => (
                        Connection { phase: Phase::Delivering { handler, result } },
                        Some(response),
                    ),
                    None => (Connection { phase: Phase::Aborted { handler, result } }, None),
                }
            },
            other => (Connection { phase: other }, None),
        }
    }

    /// `Delivering` to `Deleting` where the write and the flush succeeded, to
    /// `Aborted` where one of them failed. After a delivery, the files to
    /// remove are those present whose names are keys of the delivered result;
    /// after a failure, and in any other state, there are none.
    pub fn finish_delivery(self, delivered: bool, present: &[String]) -> (outcome: (
        Connection,
        Vec<String>,
    ))
        ensures
            outcome.0.state() == next_state(
                self.state(),
                (Step::FinishDelivery { delivered }),
                false,
            ),
            outcome.0.result_map() == self.result_map(),
            outcome.0.watched() == self.watched(),
            self.state() != ConnectionState::Delivering ==> outcome.0 == self,
            texts(outcome.1@) == if self.state() == ConnectionState::Delivering && delivered {
                names_to_remove(texts(present@), self.result_map().dom())
            } else {
                Seq::<Seq<char>>::empty()
            },
    {
        match self.phase {
            Phase::Delivering { handler, result } => {
                if delivered {
                    let names = result.keys();
                    let removed = handler.delete_processed_files(names.as_slice(), present);
                    (Connection { phase: Phase::Deleting { handler, result } }, removed)
                } else {
                    let removed: Vec<String> = Vec::new();
                    assert(texts(removed@) =~= Seq::<Seq<char>>::empty());
                    (Connection { phase: Phase::Aborted { handler, result } }, removed)
                }
            },
            other => {
                let removed: Vec<String> = Vec::new();
                assert(texts(removed@) =~= Seq::<Seq<char>>::empty());
                (Connection { phase: other }, removed)
            },
        }
    }

    /// `Deleting` or `Aborted` to `Closed`: gives the guard back to the server.
    pub fn close(self, server: &mut Server) -> (next: Connection)
        ensures
            next.state() == next_state(self.state(), Step::Close, old(server).is_free()),
            final(server).is_free() == guard_free_after(
                self.state(),
                Step::Close,
                old(server).is_free(),
            ),
            final(server).host_text() == old(server).host_text(),
            final(server).port_number() == old(server).port_number(),
            next.state() == self.state() ==> next == self && *final(server) == *old(server),
            next.state() != self.state() ==> final(server).watched() == self.watched(),
    {
        match self.phase {
            Phase::Deleting { handler, result } => {
                server.pipeline = Some(handler);
                Connection { phase: Phase::Closed }
            },
            Phase::Aborted { handler, result } => {
                server.pipeline = Some(handler);
                Connection { phase: Phase::Closed }
            },
            other => Connection { phase: other },
        }
    }
}

} // verus!
