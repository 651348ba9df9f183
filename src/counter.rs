use crate::actions::AppAction;
use vstd::prelude::*;

verus! {

/// A small demonstration panel holding one number.
pub struct Counter {
    pub count: i32,
}

impl Counter {
    pub fn increment(&mut self)
        requires
            old(self).count < i32::MAX,
        ensures
            final(self).count == old(self).count + 1,
    {
        self.count += 1;
    }

    pub fn decrement(&mut self)
        requires
            old(self).count > i32::MIN,
        ensures
            final(self).count == old(self).count - 1,
    {
        self.count -= 1;
    }

    /// Increments or decrements (staying within `i32`) and asks for a redraw;
    /// other actions are not the counter's and leave it unchanged.
    pub fn perform(&mut self, action: AppAction) -> (r: Option<AppAction>)
        ensures
            match action {
                AppAction::CounterIncrement => final(self).count == (if old(self).count < i32::MAX {
                    old(self).count + 1
                } else {
                    old(self).count as int
                }) && r == Some(AppAction::Render),
                AppAction::CounterDecrement => final(self).count == (if old(self).count > i32::MIN {
                    old(self).count - 1
                } else {
                    old(self).count as int
                }) && r == Some(AppAction::Render),
                _ => final(self).count == old(self).count && r is None,
            },
    {
        match action {
            AppAction::CounterIncrement => {
                if self.count < i32::MAX {
                    self.increment();
                }
                Some(AppAction::Render)
            },
            AppAction::CounterDecrement => {
                if self.count > i32::MIN {
                    self.decrement();
                }
                Some(AppAction::Render)
            },
            _ => None,
        }
    }
}

} // verus!
