//! The first course adviser, Pawlicki: an ELIZA engine with its own script.
pub mod database;

use vstd::prelude::*;
use crate::text::opt_view;
use crate::script::{or_default, Script, ScriptView};
use crate::engine::{can_respond, completes, reply, reply_of, ReplyResult, State, StateView};
use crate::eliza::{picked, responded};

verus! {

/// The adviser: a script and what it remembers of the conversation.
pub struct Pawlicki {
    script: Script,
    state: State,
}

impl Pawlicki {
    /// The script.
    pub closed spec fn script_view(&self) -> ScriptView {
        self.script@
    }

    /// The remembered responses and the usage of the reassembly rules.
    pub closed spec fn state_view(&self) -> StateView {
        self.state@
    }

    pub closed spec fn wf(&self) -> bool {
        self.state.wf()
    }

    /// The adviser with a script, nothing remembered and no rule used.
    pub fn from_script(script: Script) -> (e: Pawlicki)
        ensures
            e.wf(),
            e.script_view() == script@,
            e.state_view().memory == Seq::<Seq<char>>::empty(),
            e.state_view().usage == Map::<Seq<char>, nat>::empty(),
    {
        Pawlicki { script, state: State::new() }
    }

    /// A greeting picked at random from the script.
    pub fn greet(&self) -> (r: String)
        ensures
            picked(self.script_view().greetings, r@, "Hello, I am Pawlicki"@),
    {
        or_default(self.script.rand_greet(), "Hello, I am Pawlicki")
    }

    /// A farewell picked at random from the script.
    pub fn farewell(&self) -> (r: String)
        ensures
            picked(self.script_view().farewells, r@, "Goodbye."@),
    {
        or_default(self.script.rand_farewell(), "Goodbye.")
    }

    /// A fallback statement picked at random from the script.
    pub fn fallback(&self) -> (r: String)
        ensures
            picked(self.script_view().fallbacks, r@, "Go on."@),
    {
        or_default(self.script.rand_fallback(), "Go on.")
    }

    /// Responds to `input`: from its keywords, else from memory, else with a fallback.
    pub fn respond(&mut self, input: &str) -> (r: String)
        requires
            old(self).wf(),
            can_respond(old(self).script_view(), old(self).state_view(), input@),
        ensures
            final(self).wf(),
            final(self).script_view() == old(self).script_view(),
            responded(
                reply(old(self).script_view(), old(self).state_view(), input@),
                Some(r@),
                final(self).state_view(),
                old(self).script_view().fallbacks,
                "Go on."@,
            ),
    {
        let ghost f = choose|f: nat| completes(self.script@, self.state@, input@, f);
        match self.state.reply(&self.script, input, None, Ghost(f)) {
            ReplyResult::Answer(x) => x,
            ReplyResult::Remembered(x) => x,
            ReplyResult::Fallback => self.fallback(),
            _ => {
                proof {
                    assert(false);
                }
                String::new()
            },
        }
    }

    /// Responds to `input` as `respond` does, searching at most `max_steps`
    /// keywords; `None` where the search runs out of steps or the script names
    /// a capture that does not exist.
    pub fn try_respond(&mut self, input: &str, max_steps: usize) -> (r: Option<String>)
        requires
            old(self).wf(),
        ensures
            final(self).wf(),
            final(self).script_view() == old(self).script_view(),
            responded(
                reply_of(old(self).script_view(), old(self).state_view(), input@, max_steps as nat),
                opt_view(r),
                final(self).state_view(),
                old(self).script_view().fallbacks,
                "Go on."@,
            ),
    {
        match self.state.reply(&self.script, input, Some(max_steps), Ghost(max_steps as nat)) {
            ReplyResult::Answer(x) => Some(x),
            ReplyResult::Remembered(x) => Some(x),
            ReplyResult::Fallback => Some(self.fallback()),
            _ => None,
        }
    }
}

} // verus!
