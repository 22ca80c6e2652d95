//! An ELIZA instance: a script and what it remembers of the conversation.
use vstd::prelude::*;
use crate::text::opt_view;
use crate::script::{or_default, Script, ScriptView};
use crate::engine::{can_respond, reply, reply_of, Reply, ReplyResult, State, StateView};

verus! {

/// `r` is one of `options`, or `default` when there are none.
pub open spec fn picked(options: Seq<Seq<char>>, r: Seq<char>, default: Seq<char>) -> bool {
    if options.len() == 0 {
        r == default
    } else {
        options.contains(r)
    }
}

/// The response `r` and the state `st` are those of the reply `o`, a fallback
/// being picked from `fallbacks` (or `default`); `None` where the reply did not end.
pub open spec fn responded(o: Reply, r: Option<Seq<char>>, st: StateView, fallbacks: Seq<Seq<char>>, default: Seq<char>) -> bool {
    match o {
        Reply::Answer(t, s) => r == Some(t) && st == s,
        Reply::Remembered(t, s) => r == Some(t) && st == s,
        Reply::Fallback(s) => r matches Some(x) && picked(fallbacks, x, default) && st == s,
        Reply::Panicked(s) => r is None && st == s,
        Reply::Exhausted(s) => r is None && st == s,
    }
}

/// An ELIZA instance.
pub struct Eliza {
    script: Script,
    state: State,
}

impl Eliza {
    /// The script.
    pub closed spec fn script_view(&self) -> ScriptView {
        self.script@
    }

    /// The remembered responses and the usage of the reassembly rules.
    pub closed spec fn state_view(&self) -> StateView {
        self.state@
    }

    pub closed spec fn wf(&self) -> bool {
        self.state.wf()
    }

    /// ELIZA with a script, nothing remembered and no rule used.
    pub fn from_script(script: Script) -> (e: Eliza)
        ensures
            e.wf(),
            e.script_view() == script@,
            e.state_view().memory == Seq::<Seq<char>>::empty(),
            e.state_view().usage == Map::<Seq<char>, nat>::empty(),
    {
        Eliza { script, state: State::new() }
    }

    /// Randomly selects a greeting statement from the `greetings` list in the script.
    pub fn greet(&self) -> (r: String)
        ensures
            picked(self.script_view().greetings, r@, "Hello, I am Eliza."@),
    {
        or_default(self.script.rand_greet(), "Hello, I am Eliza.")
    }

    /// Randomly selects a farewell statement from the `farewell` list in the script.
    pub fn farewell(&self) -> (r: String)
        ensures
            picked(self.script_view().farewells, r@, "Goodbye."@),
    {
        or_default(self.script.rand_farewell(), "Goodbye.")
    }

    /// A fallback statement picked at random from the script.
    fn fallback(&self) -> (r: String)
        ensures
            picked(self.script_view().fallbacks, r@, "Go on."@),
    {
        or_default(self.script.rand_fallback(), "Go on.")
    }

    /// Responds to a given input string based on the internal ELIZA script.
    pub fn respond(&mut self, input: &str) -> (r: String)
        requires
            old(self).wf(),
            can_respond(old(self).script_view(), old(self).state_view(), input@),
        ensures
            final(self).wf(),
            final(self).script_view() == old(self).script_view(),
            responded(
                reply(old(self).script_view(), old(self).state_view(), input@),
                Some(r@),
                final(self).state_view(),
                old(self).script_view().fallbacks,
                "Go on."@,
            ),
    {
        let ghost f = choose|f: nat| crate::engine::completes(self.script@, self.state@, input@, f);
        match self.state.reply(&self.script, input, None, Ghost(f)) {
            ReplyResult::Answer(x) => x,
            ReplyResult::Remembered(x) => x,
            ReplyResult::Fallback => self.fallback(),
            _ => {
                proof {
                    assert(false);
                }
                String::new()
            },
        }
    }

    /// Responds to `input` as `respond` does, searching at most `max_steps`
    /// keywords; `None` where the search runs out of steps or the script names
    /// a capture that does not exist.
    pub fn try_respond(&mut self, input: &str, max_steps: usize) -> (r: Option<String>)
        requires
            old(self).wf(),
        ensures
            final(self).wf(),
            final(self).script_view() == old(self).script_view(),
            responded(
                reply_of(old(self).script_view(), old(self).state_view(), input@, max_steps as nat),
                opt_view(r),
                final(self).state_view(),
                old(self).script_view().fallbacks,
                "Go on."@,
            ),
    {
        match self.state.reply(&self.script, input, Some(max_steps), Ghost(max_steps as nat)) {
            ReplyResult::Answer(x) => Some(x),
            ReplyResult::Remembered(x) => Some(x),
            ReplyResult::Fallback => Some(self.fallback()),
            _ => None,
        }
    }
}

} // verus!
