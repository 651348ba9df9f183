//! The single mutator of application state: one action at a time, each
//! yielding at most one follow-up, until a redraw ends the chain.
use crate::actions::{AppAction, AppMode};
use crate::artifacts::{performed, Artifacts};
use crate::counter::Counter;
use vstd::prelude::*;

verus! {

/// What may follow `action` in its chain: nothing after a redraw or a quit;
/// a redraw or a deletion request after a removal request; a redraw after
/// anything else.
pub open spec fn follows(action: AppAction, next: Option<AppAction>) -> bool {
    match action {
        AppAction::Render | AppAction::Quit => next is None,
        AppAction::ArtifactsRemoveRow => next == Some(AppAction::Render) || (next is Some
            && next.unwrap() is ArtifactsDeletePath),
        _ => next == Some(AppAction::Render),
    }
}

/// Every action other than a redraw or a quit is followed, within its own
/// chain, by a redraw: at once, or right after the deletion request it made.
pub proof fn lemma_chain_reaches_render(
    action: AppAction,
    first: Option<AppAction>,
    second: Option<AppAction>,
)
    requires
        !(action is Render),
        !(action is Quit),
        follows(action, first),
        first is Some ==> follows(first.unwrap(), second),
    ensures
        first == Some(AppAction::Render) || (first is Some && second == Some(AppAction::Render)),
{
}

/// The whole in-memory state of the application.
pub struct App {
    pub mode: AppMode,
    pub counter_1: Counter,
    pub artifacts: Artifacts,
    pub should_quit: bool,
    /// The message of the last reported error.
    pub last_error: Option<String>,
}

impl App {
    pub open spec fn wf(&self) -> bool {
        self.artifacts.wf()
    }

    pub fn new() -> (r: App)
        ensures
            r.wf(),
            r.mode == AppMode::Artifacts,
            r.counter_1.count == 0,
            r.artifacts.rows@.len() == 0,
            r.artifacts.selected is None,
            !r.should_quit,
            r.last_error is None,
    {
        App {
            mode: AppMode::Artifacts,
            counter_1: Counter { count: 0 },
            artifacts: Artifacts::new(),
            should_quit: false,
            last_error: None,
        }
    }

    fn switch_mode(&mut self, mode: AppMode) -> (r: Option<AppAction>)
        ensures
            final(self).mode == mode,
            final(self).counter_1 == old(self).counter_1,
            final(self).artifacts == old(self).artifacts,
            final(self).should_quit == old(self).should_quit,
            final(self).last_error == old(self).last_error,
            r == Some(AppAction::Render),
    {
        self.mode = mode;
        Some(AppAction::Render)
    }

    fn quit(&mut self) -> (r: Option<AppAction>)
        ensures
            final(self).should_quit,
            final(self).mode == old(self).mode,
            final(self).counter_1 == old(self).counter_1,
            final(self).artifacts == old(self).artifacts,
            final(self).last_error == old(self).last_error,
            r is None,
    {
        self.should_quit = true;
        None
    }

    /// Applies one action and returns its follow-up. Table actions go to
    /// the table, counter actions to the counter; an error is kept for
    /// display; a redraw is the caller's to perform and has no follow-up.
    pub fn handle_action(&mut self, action: AppAction) -> (r: Option<AppAction>)
        ensures
            old(self).wf() ==> final(self).wf(),
            follows(action, r),
            final(self).should_quit == (old(self).should_quit || action is Quit),
            final(self).mode == (match action {
                AppAction::SwitchMode(m) => m,
                _ => old(self).mode,
            }),
            !(action is CounterIncrement || action is CounterDecrement) ==> final(self).counter_1
                == old(self).counter_1,
            action is CounterIncrement ==> final(self).counter_1.count == (if old(self).counter_1.count
                < i32::MAX {
                old(self).counter_1.count + 1
            } else {
                old(self).counter_1.count as int
            }),
            action is CounterDecrement ==> final(self).counter_1.count == (if old(self).counter_1.count
                > i32::MIN {
                old(self).counter_1.count - 1
            } else {
                old(self).counter_1.count as int
            }),
            match action {
                AppAction::Error(msg) => final(self).last_error == Some(msg),
                _ => final(self).last_error == old(self).last_error,
            },
            !is_table_action(action) ==> final(self).artifacts == old(self).artifacts,
            is_table_action(action) ==> performed(old(self).artifacts, final(self).artifacts, action, r),
    {
        match action {
            AppAction::Render => None,
            AppAction::Quit => self.quit(),
            AppAction::SwitchMode(mode) => self.switch_mode(mode),
            AppAction::Tick => Some(AppAction::Render),
            AppAction::Error(msg) => {
                self.last_error = Some(msg);
                Some(AppAction::Render)
            },
            AppAction::CounterIncrement | AppAction::CounterDecrement => {
                self.counter_1.perform(action);
                Some(AppAction::Render)
            },
            _ => self.artifacts.perform(action),
        }
    }
}

/// The actions that the table handles.
pub open spec fn is_table_action(action: AppAction) -> bool {
    match action {
        AppAction::Render | AppAction::Quit | AppAction::Tick | AppAction::SwitchMode(_)
        | AppAction::Error(_) | AppAction::CounterIncrement | AppAction::CounterDecrement => false,
        _ => true,
    }
}

} // verus!
