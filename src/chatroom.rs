//! A sample state machine to replicate: a chat log that clients append
//! messages to and read back whole.

use vstd::prelude::*;

verus! {

/// A chat request.
#[derive(Debug)]
pub enum Mode {
    /// Read the whole log.
    Get,
    /// Append a message.
    Put(String),
}

/// A chat response.
#[derive(Debug)]
pub enum Response {
    Messages(Vec<String>),
}

/// The chat log.
#[derive(Debug)]
pub struct State {
    pub messages: Vec<String>,
}

impl State {
    pub fn new() -> (r: State)
        ensures
            r.messages@ == Seq::<String>::empty(),
    {
        State { messages: Vec::new() }
    }

    /// Applies a request decided at `slot`: `Put` appends its message and
    /// answers nothing; `Get` answers with the whole log.
    pub fn execute(&mut self, slot: u64, mode: Mode) -> (r: Option<Response>)
        ensures
            match mode {
                Mode::Get => final(self).messages@ == old(self).messages@ && (r matches Some(
                    Response::Messages(v),
                ) && v@ == old(self).messages@),
                Mode::Put(m) => final(self).messages@ == old(self).messages@.push(m) && r is None,
            },
    {
        match mode {
            Mode::Get => {
                let mut v: Vec<String> = Vec::new();
                let mut i: usize = 0;
                while i < self.messages.len()
                    invariant
                        i <= self.messages@.len(),
                        v@ == self.messages@.take(i as int),
                    decreases self.messages@.len() - i,
                {
                    v.push(self.messages[i].clone());
                    proof {
                        assert(self.messages@.take(i + 1) == self.messages@.take(i as int).push(
                            self.messages@[i as int],
                        ));
                    }
                    i += 1;
                }
                proof {
                    assert(self.messages@.take(self.messages@.len() as int) == self.messages@);
                }
                Some(Response::Messages(v))
            },
            Mode::Put(m) => {
                self.messages.push(m);
                None
            },
        }
    }
}

} // verus!
