//! Command history for the interactive mode: navigation and deduplication.
//! Loading and saving the history file is the caller's business; the
//! entries come and go as plain strings.

use vstd::prelude::*;
use crate::chars::{chars_to_string, str_to_chars};
use crate::textops::{trim_chars, trim_spec};

verus! {

/// The history entries, a cursor into them, and the draft line preserved
/// while navigating.
pub struct History {
    pub entries: Vec<String>,
    pub index: Option<usize>,
    pub draft: String,
}

impl History {
    /// The entries' characters, oldest first.
    pub open spec fn entries_view(&self) -> Seq<Seq<char>> {
        self.entries.deep_view()
    }

    pub open spec fn spec_index(&self) -> Option<int> {
        match self.index {
            Some(i) => Some(i as int),
            None => None,
        }
    }

    /// A well-formed history points inside its entries.
    pub open spec fn wf(&self) -> bool {
        match self.index {
            Some(i) => (i as int) < self.entries@.len(),
            None => true,
        }
    }

    /// A fresh history over the given entries, not navigating.
    pub fn from_entries(entries: Vec<String>) -> (r: History)
        ensures
            r.entries_view() == entries.deep_view(),
            r.spec_index() is None,
            r.draft@ == Seq::<char>::empty(),
            r.wf(),
    {
        History { entries, index: None, draft: String::new() }
    }

    /// The number of entries.
    pub fn entries_len(&self) -> (r: usize)
        ensures
            r == self.entries_view().len(),
    {
        proof {
            assert(self.entries.deep_view().len() == self.entries@.len());
        }
        self.entries.len()
    }

    /// The navigation cursor.
    pub fn index(&self) -> (r: Option<usize>)
        ensures
            r == self.index,
    {
        self.index
    }

    /// The draft line preserved while navigating.
    pub fn draft(&self) -> (r: &String)
        ensures
            r == &self.draft,
    {
        &self.draft
    }

    /// The entries, oldest first (for saving).
    pub fn entries(&self) -> (r: &Vec<String>)
        ensures
            r == &self.entries,
    {
        &self.entries
    }

    /// Appends a committed programme: trimmed, with empty lines ignored and
    /// an immediate repeat of the last entry dropped.
    pub fn add(&mut self, programme: &str)
        requires
            old(self).wf(),
        ensures
            final(self).wf(),
            final(self).spec_index() == old(self).spec_index(),
            final(self).draft == old(self).draft,
            ({
                let t = trim_spec(programme@);
                if t.len() == 0 {
                    final(self).entries_view() == old(self).entries_view()
                } else if old(self).entries_view().len() > 0 && old(self).entries_view().last()
                    == t {
                    final(self).entries_view() == old(self).entries_view()
                } else {
                    final(self).entries_view() == old(self).entries_view().push(t)
                }
            }),
    {
        let cs = str_to_chars(programme);
        let trimmed = chars_to_string(&trim_chars(&cs));
        if trimmed.as_str().is_empty() {
            return ;
        }
        let n = self.entries.len();
        proof {
            assert(self.entries.deep_view().len() == self.entries@.len());
        }
        if n > 0 && crate::chars::strings_equal(&self.entries[n - 1], &trimmed) {
            proof {
                assert(old(self).entries_view().last() == trim_spec(programme@));
            }
            return ;
        }
        self.entries.push(trimmed);
        proof {
            assert(final(self).entries_view() =~~= old(self).entries_view().push(
                trim_spec(programme@),
            ));
        }
    }

    /// Steps back in the history: on the first step the current line is
    /// saved as the draft; at the oldest entry nothing changes.
    pub fn up(&mut self, current: &str) -> (r: Option<String>)
        requires
            old(self).wf(),
        ensures
            final(self).wf(),
            final(self).entries_view() == old(self).entries_view(),
            old(self).entries_view().len() == 0 ==> r is None && *final(self) == *old(self),
            old(self).entries_view().len() > 0 ==> match old(self).spec_index() {
                None => {
                    &&& final(self).spec_index() == Some(
                        old(self).entries_view().len() as int - 1,
                    )
                    &&& final(self).draft@ == current@
                    &&& r matches Some(s) && s@ == old(self).entries_view().last()
                },
                Some(i) => if i == 0 {
                    r is None && *final(self) == *old(self)
                } else {
                    &&& final(self).spec_index() == Some(i - 1)
                    &&& final(self).draft == old(self).draft
                    &&& r matches Some(s) && s@ == old(self).entries_view()[i - 1]
                },
            },
    {
        let n = self.entries.len();
        proof {
            assert(self.entries.deep_view().len() == self.entries@.len());
        }
        if n == 0 {
            return None;
        }
        let new_index: usize = match self.index {
            None => {
                self.draft = programme_string(current);
                n - 1
            },
            Some(i) => {
                if i == 0 {
                    return None;
                }
                i - 1
            },
        };
        self.index = Some(new_index);
        Some(clone_entry(&self.entries[new_index]))
    }

    /// Steps forward: past the newest entry navigation ends and the draft
    /// comes back.
    pub fn down(&mut self, _current: &str) -> (r: Option<String>)
        requires
            old(self).wf(),
        ensures
            final(self).wf(),
            final(self).entries_view() == old(self).entries_view(),
            final(self).draft == old(self).draft,
            match old(self).spec_index() {
                None => r is None && *final(self) == *old(self),
                Some(i) => if i + 1 >= old(self).entries_view().len() {
                    &&& final(self).spec_index() is None
                    &&& r matches Some(s) && s@ == old(self).draft@
                } else {
                    &&& final(self).spec_index() == Some(i + 1)
                    &&& r matches Some(s) && s@ == old(self).entries_view()[i + 1]
                },
            },
    {
        let i = match self.index {
            Some(i) => i,
            None => {
                return None;
            },
        };
        let n = self.entries.len();
        proof {
            assert(self.entries.deep_view().len() == self.entries@.len());
        }
        if i + 1 >= n {
            self.index = None;
            return Some(clone_entry(&self.draft));
        }
        self.index = Some(i + 1);
        Some(clone_entry(&self.entries[i + 1]))
    }

    /// Ends navigation and clears the draft.
    pub fn reset(&mut self)
        ensures
            final(self).entries_view() == old(self).entries_view(),
            final(self).spec_index() is None,
            final(self).draft@ == Seq::<char>::empty(),
            final(self).wf(),
    {
        self.index = None;
        self.draft = String::new();
    }
}

/// The same characters, as vstd specifies `str::to_owned`.
fn programme_string(s: &str) -> (r: String)
    ensures
        r@ == s@,
{
    s.to_owned()
}

/// The same characters, as vstd specifies `String::clone`.
fn clone_entry(s: &String) -> (r: String)
    ensures
        r@ == s@,
{
    s.clone()
}

} // verus!
