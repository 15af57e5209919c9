//! The paginated interactive display: a bounded-lifetime session holding
//! the rendered pages, the current page index, the requester's identity,
//! and the expiry deadline. Navigation never wraps around, only the
//! requester may navigate, and an expired session changes nothing.

use vstd::prelude::*;
use vstd::string::StringExecFns;
use crate::text::{dec_chars, fmt_u64, str_eq, views_of};

verus! {

/// A navigation control: one logical button.
#[derive(Clone, Copy, Debug, PartialEq, Eq, Structural)]
pub enum NavEvent {
    Prev,
    Next,
}

/// What one incoming interaction did to the session.
#[derive(Clone, Copy, Debug, PartialEq, Eq, Structural)]
pub enum SessionOutcome {
    /// The actor is not the requester; nothing changed.
    Ignored,
    /// The deadline passed; nothing changed and the session is over.
    Expired,
    /// The display must show the page at this index.
    Show(usize),
}

/// Where one navigation event moves the page index: one step, never past
/// either end.
pub open spec fn step_index(i: int, last: int, ev: NavEvent) -> int {
    match ev {
        NavEvent::Prev => if i > 0 {
            i - 1
        } else {
            i
        },
        NavEvent::Next => if i < last {
            i + 1
        } else {
            i
        },
    }
}

/// The control identifier each logical button carries.
pub fn parse_control(id: &str) -> (r: Option<NavEvent>)
    ensures
        r == (if id@ == "interact.prev"@ {
            Some(NavEvent::Prev)
        } else if id@ == "interact.next"@ {
            Some(NavEvent::Next)
        } else {
            None::<NavEvent>
        }),
{
    if str_eq(id, "interact.prev") {
        Some(NavEvent::Prev)
    } else if str_eq(id, "interact.next") {
        Some(NavEvent::Next)
    } else {
        None
    }
}

/// One display session over an ordered, non-empty page sequence.
#[derive(Debug)]
pub struct PageSession {
    pages: Vec<String>,
    index: usize,
    requester: u64,
    deadline: u64,
}

impl PageSession {
    /// The session's pages.
    pub closed spec fn pages(&self) -> Seq<Seq<char>> {
        views_of(self.pages@)
    }

    /// The current page index.
    pub closed spec fn index(&self) -> int {
        self.index as int
    }

    /// The one actor whose events are honoured.
    pub closed spec fn requester(&self) -> u64 {
        self.requester
    }

    /// The moment the session stops reacting.
    pub closed spec fn deadline(&self) -> u64 {
        self.deadline
    }

    /// At least one page, and the index points at one of them.
    pub open spec fn wf(&self) -> bool {
        self.pages().len() >= 1 && 0 <= self.index() < self.pages().len()
    }

    /// A fresh session: the first page shown, bound to one requester and
    /// one deadline.
    pub fn new(pages: Vec<String>, requester: u64, deadline: u64) -> (r: PageSession)
        requires
            pages@.len() >= 1,
        ensures
            r.pages() == views_of(pages@),
            r.index() == 0,
            r.requester() == requester,
            r.deadline() == deadline,
            r.wf(),
    {
        PageSession { pages, index: 0, requester, deadline }
    }

    /// The page currently shown.
    pub fn current_page(&self) -> (r: &String)
        requires
            self.wf(),
        ensures
            r@ == self.pages()[self.index()],
    {
        &self.pages[self.index]
    }

    /// How many pages the session holds.
    pub fn page_count(&self) -> (r: usize)
        ensures
            r == self.pages().len(),
    {
        self.pages.len()
    }

    /// The current page index.
    pub fn page_index(&self) -> (r: usize)
        ensures
            r == self.index(),
    {
        self.index
    }

    /// Whether a "previous" control is shown: only when a page precedes.
    pub fn has_prev(&self) -> (r: bool)
        ensures
            r == (self.index() > 0),
    {
        self.index > 0
    }

    /// Whether a "next" control is shown: only when a page follows.
    pub fn has_next(&self) -> (r: bool)
        requires
            self.wf(),
        ensures
            r == (self.index() < self.pages().len() - 1),
    {
        self.index < self.pages.len() - 1
    }

    /// The footer line: the one-based page number out of the page count.
    pub fn footer(&self) -> (r: String)
        requires
            self.wf(),
        ensures
            r@ == "Page "@ + dec_chars((self.index() + 1) as nat) + " out of "@ + dec_chars(
                self.pages().len() as nat,
            ),
    {
        proof {
            assert(self.pages().len() == self.pages@.len());
        }
        let n = self.pages.len();
        let shown = self.index + 1;
        let mut r = "Page ".to_owned();
        r.append(fmt_u64(shown as u64).as_str());
        r.append(" out of ");
        r.append(fmt_u64(n as u64).as_str());
        proof {
            assert(r@ =~= "Page "@ + dec_chars((self.index() + 1) as nat) + " out of "@
                + dec_chars(self.pages().len() as nat));
        }
        r
    }

    /// Reacts to one interaction: an event from anyone but the requester
    /// is ignored; past the deadline the session is over and nothing
    /// changes; otherwise the index moves one step, never past either end,
    /// and the page to show comes back.
    pub fn handle_event(&mut self, actor: u64, now: u64, ev: NavEvent) -> (r: SessionOutcome)
        requires
            old(self).wf(),
        ensures
            final(self).wf(),
            final(self).pages() == old(self).pages(),
            final(self).requester() == old(self).requester(),
            final(self).deadline() == old(self).deadline(),
            actor != old(self).requester() ==> final(self).index() == old(self).index() && r
                == SessionOutcome::Ignored,
            actor == old(self).requester() && now > old(self).deadline() ==> final(self).index()
                == old(self).index() && r == SessionOutcome::Expired,
            actor == old(self).requester() && now <= old(self).deadline() ==> final(self).index()
                == step_index(old(self).index(), old(self).pages().len() - 1, ev) && r
                == SessionOutcome::Show(final(self).index() as usize),
    {
        if actor != self.requester {
            return SessionOutcome::Ignored;
        }
        if now > self.deadline {
            return SessionOutcome::Expired;
        }
        match ev {
            NavEvent::Prev => {
                if self.index > 0 {
                    self.index = self.index - 1;
                }
            },
            NavEvent::Next => {
                if self.index < self.pages.len() - 1 {
                    self.index = self.index + 1;
                }
            },
        }
        SessionOutcome::Show(self.index)
    }
}

/// From the first page a "previous" event is a no-op; from the last page
/// a "next" event is a no-op; from any interior page each event moves the
/// index by exactly one.
pub proof fn lemma_navigation_boundary(i: int, last: int)
    requires
        0 <= i <= last,
    ensures
        step_index(0, last, NavEvent::Prev) == 0,
        step_index(last, last, NavEvent::Next) == last,
        i > 0 ==> step_index(i, last, NavEvent::Prev) == i - 1,
        i < last ==> step_index(i, last, NavEvent::Next) == i + 1,
{
}

} // verus!
