//! The controller as its connections see it: frames in, frames out.

use super::laws::{law_meta_encodable, law_snapshot_roundtrip};
use super::snapshot::{snapshot_bytes, snapshot_fault, snapshot_says, snapshot_vals};
use super::state_laws::law_snapshot_restores;
use super::{
    any_dead, handles, state_ok, state_room, swept, ControllerConfig, Handled, State, StateView,
};
use crate::proto::fits::law_decoded_fits;
use crate::proto::meta::cluster_vals;
use crate::proto::request::{request_shape, request_tag, request_vals};
use crate::proto::response::{response_tag, response_vals};
use crate::proto::schema::{fits, texts_fit};
use crate::proto::{
    decode_request, encode_response, error_text, frame, parse_message, Request, Response,
};
use vstd::prelude::*;
use vstd::string::*;

verus! {

/// A controller: what it knows, and how long a broker may be silent.
pub struct Controller {
    config: ControllerConfig,
    state: State,
}

/// What a frame leads to.
pub enum Served {
    /// The frame to send back, and the snapshot to persist before that, if the
    /// state changed.
    Reply { frame: Vec<u8>, snapshot: Option<Vec<u8>> },
    /// The frame was no request; the connection ends.
    Undecodable(String),
    /// Versions or epochs are used up; nothing changed and there is no answer.
    Exhausted,
}

/// What one frame leads to, from one state to the next.
pub open spec fn serves(s: StateView, t: StateView, payload: Seq<u8>, now_ms: u64, r: Served) -> bool {
    match parse_message(payload, |tag: u8| request_shape(tag)) {
        Err(e) => t == s && r is Undecodable && r->Undecodable_0@ == error_text(e),
        Ok((corr, tag, vs)) => if !state_room(s) {
            t == s && r is Exhausted
        } else {
            exists|req: Request, resp: Response|
                #![trigger handles(s, t, req, now_ms, resp)]
                {
                    &&& request_tag(req) == tag
                    &&& request_vals(req) == vs
                    &&& handles(s, t, req, now_ms, resp)
                    &&& r is Reply
                    &&& r->frame@ == frame(response_tag(resp), corr, response_vals(resp))
                    &&& (r->snapshot is Some <==> t.version != s.version)
                }
        },
    }
}

impl View for Controller {
    type V = StateView;

    closed spec fn view(&self) -> StateView {
        self.state@
    }
}

proof fn lemma_response_fits(s: StateView, t: StateView, req: Request, now_ms: u64, r: Response)
    requires
        state_ok(s),
        handles(s, t, req, now_ms, r),
    ensures
        texts_fit(response_vals(r)),
{
    reveal_with_fuel(texts_fit, 6);
    match r {
        Response::ControllerMetadata { error, cluster } => {
            if error == crate::proto::ErrorCode::NoError {
                law_meta_encodable(cluster, s);
            } else {
                let none = cluster_vals(cluster);
                assert(cluster.brokers@.len() == 0);
            }
        },
        _ => {},
    }
}

impl Controller {
    pub closed spec fn ok(self) -> bool {
        self.state.ok()
    }

    /// How long a broker may be silent.
    pub closed spec fn timeout_ms(self) -> u64 {
        self.config.session_timeout_ms
    }

    /// The state that this controller would persist.
    pub closed spec fn persisted(self) -> Seq<u8> {
        snapshot_bytes(self.state)
    }

    /// Whether the state's lists are short enough for a snapshot to count them.
    pub closed spec fn snapshot_fits(self) -> bool {
        fits(snapshot_vals(self.state))
    }

    /// A controller with the state that its snapshot file holds.
    pub fn new(config: ControllerConfig, file: Option<&[u8]>) -> (r: Result<Controller, String>)
        ensures
            match file {
                None => r is Ok && r->Ok_0.ok() && r->Ok_0@.version == 0 && r->Ok_0@.brokers.len()
                    == 0 && r->Ok_0@.topics.len() == 0,
                Some(bytes) => match snapshot_fault(bytes@) {
                    Some(text) => r is Err && r->Err_0@ == text,
                    None => r is Ok && r->Ok_0.ok() && exists|s: State| #[trigger]
                        snapshot_says(bytes@, s) && r->Ok_0@ == s@,
                },
            },
            r is Ok ==> r->Ok_0.timeout_ms() == config.session_timeout_ms,
    {
        let state: State = match State::load_snapshot(file) {
            Ok(s) => s,
            Err(text) => {
                return Err(text);
            },
        };
        Ok(Controller { config, state })
    }

    fn has_room(&self) -> (r: bool)
        ensures
            r == state_room(self@),
    {
        if self.state.version == u64::MAX {
            return false;
        }
        let mut i: usize = 0;
        while i < self.state.topics.len()
            invariant
                i <= self.state.topics@.len(),
                forall|j: int, k: int|
                    0 <= j < i && 0 <= k < self.state@.topics[j].parts.len() ==> (
                    #[trigger] self.state@.topics[j].parts[k]).epoch < u64::MAX,
            decreases self.state.topics@.len() - i,
        {
            let ghost parts = self.state@.topics[i as int].parts;
            assert(self.state@.topics[i as int] == self.state.topics@[i as int]@);
            let mut k: usize = 0;
            while k < self.state.topics[i].partitions.len()
                invariant
                    i < self.state.topics@.len(),
                    k <= self.state.topics@[i as int].partitions@.len(),
                    parts == self.state@.topics[i as int].parts,
                    parts.len() == self.state.topics@[i as int].partitions@.len(),
                    self.state@.topics[i as int] == self.state.topics@[i as int]@,
                    forall|m: int| 0 <= m < k ==> (#[trigger] parts[m]).epoch < u64::MAX,
                decreases self.state.topics@[i as int].partitions@.len() - k,
            {
                assert(parts[k as int] == self.state.topics@[i as int].partitions@[k as int]@);
                if self.state.topics[i].partitions[k].leader_epoch == u64::MAX {
                    assert(self.state@.topics[i as int].parts[k as int].epoch == u64::MAX);
                    return false;
                }
                k += 1;
            }
            i += 1;
        }
        true
    }

    /// Answers the payload of a frame.
    pub fn serve(&mut self, payload: &[u8], now_ms: u64) -> (r: Served)
        requires
            old(self).ok(),
        ensures
            final(self).ok(),
            final(self).timeout_ms() == old(self).timeout_ms(),
            serves(old(self)@, final(self)@, payload@, now_ms, r),
            r matches Served::Reply { snapshot: Some(bytes), .. } ==> bytes@
                == final(self).persisted(),
    {
        match decode_request(payload) {
            Err(e) => Served::Undecodable(e.message()),
            Ok((corr, req)) => {
                if !self.has_room() {
                    return Served::Exhausted;
                }
                proof {
                    law_decoded_fits(payload@, |tag: u8| request_shape(tag));
                }
                let ghost before = self.state@;
                let ghost asked = req;
                let h: Handled = self.state.handle(req, now_ms);
                proof {
                    lemma_response_fits(before, self.state@, asked, now_ms, h.response);
                }
                let frame: Vec<u8> = encode_response(&h.response, corr);
                assert(handles(before, self.state@, asked, now_ms, h.response));
                Served::Reply { frame, snapshot: h.snapshot }
            },
        }
    }

    /// Declares brokers dead that were silent for too long; the snapshot to
    /// persist, if there were any.
    pub fn sweep(&mut self, now_ms: u64) -> (r: Option<Vec<u8>>)
        requires
            old(self).ok(),
        ensures
            final(self).ok(),
            final(self).timeout_ms() == old(self).timeout_ms(),
            !state_room(old(self)@) ==> final(self)@ == old(self)@ && r is None,
            state_room(old(self)@) ==> final(self)@ == swept(
                old(self)@,
                now_ms,
                old(self).timeout_ms(),
            ) && (r is Some <==> any_dead(old(self)@.brokers, now_ms, old(self).timeout_ms())),
            r matches Some(bytes) ==> bytes@ == final(self).persisted(),
    {
        if !self.has_room() {
            return None;
        }
        let timeout: u64 = self.config.session_timeout_ms;
        if self.state.sweep_liveness(now_ms, timeout) {
            Some(self.state.persist_snapshot())
        } else {
            None
        }
    }
}

/// What a controller persists can be read again, and a controller that starts
/// from it knows every topic and every broker's client address as before.
pub proof fn law_persisted(c: Controller, t: State)
    requires
        c.ok(),
        c.snapshot_fits(),
    ensures
        snapshot_fault(c.persisted()) is None,
        snapshot_says(c.persisted(), t) ==> t@.version == c@.version && t@.topics == c@.topics
            && t@.brokers.len() == c@.brokers.len() && forall|i: int|
            0 <= i < c@.brokers.len() ==> (#[trigger] t@.brokers[i]).id == c@.brokers[i].id
                && t@.brokers[i].addr == c@.brokers[i].addr,
{
    law_snapshot_roundtrip(c.state);
    if snapshot_says(c.persisted(), t) {
        law_snapshot_restores(c.state, t);
    }
}

} // verus!
