//! The interactive prompt's state and decisions: the live editor, the ring
//! of ranked candidates, and the transition table that says, for each
//! editor event, whether the session ends (and with what text), the
//! selection moves, the completer mode toggles, or the candidates are
//! recomputed. The terminal loop outside the library feeds events in and
//! carries the decisions out.

use vstd::prelude::*;

verus! {

use vstd::string::StrSliceExecFns;
use vstd::string::StringExecFns;
use crate::readkeys::{Readkeys, ReadEvent, Key, Printable, strip_escapes, st_set_value};
use crate::ring_buffer::{RingBuffer, RingBufferIter, step_forward, step_back};
use crate::util::push_char;

/// What the control loop must do next.
pub enum PromptAction {
    /// End the session without producing anything.
    Cancel,
    /// End the session and emit this text.
    Accept(String),
    /// The selection moved; redraw without recomputing candidates.
    Moved,
    /// Cycle the completer mode, then recompute candidates.
    ToggleMode,
    /// Recompute candidates against the (possibly changed) buffer.
    Recompute,
}

/// The interactive prompt's state: the prompt label, the line editor, and
/// the ring of ranked candidates.
pub struct DropdownPrompt {
    pub prompt: String,
    pub readkeys: Readkeys,
    pub values: RingBuffer<String>,
}

/// The position `steps` places clockwise of `start` on a ring of `len`
/// elements.
pub open spec fn ring_index(len: int, start: int, steps: int) -> int {
    if start + steps < len {
        start + steps
    } else {
        start + steps - len
    }
}

impl DropdownPrompt {
    pub open spec fn wf(&self) -> bool {
        self.readkeys.wf() && self.values.wf()
    }

    /// The text the selection stands for: the current candidate, or the
    /// raw buffer when there are no candidates, before markup stripping.
    pub open spec fn spec_current(&self) -> Seq<char> {
        if self.values@.len() > 0 {
            self.values@[self.values.cursor_index()]@
        } else {
            self.readkeys.value@
        }
    }

    /// What a submission emits: the stripped selection with a trailing
    /// space.
    pub open spec fn spec_padded(&self) -> Seq<char> {
        strip_escapes(self.spec_current()).push(' ')
    }

    /// What the alternate submission emits: the raw buffer, verbatim, with
    /// a trailing space.
    pub open spec fn spec_buffer_padded(&self) -> Seq<char> {
        self.readkeys.value@.push(' ')
    }

    /// A fresh prompt around a label and an editor, with no candidates
    /// yet.
    pub fn new(prompt: String, readkeys: Readkeys) -> (r: Self)
        requires
            readkeys.wf(),
        ensures
            r.wf(),
            r.prompt == prompt,
            r.readkeys == readkeys,
            r.values@.len() == 0,
    {
        DropdownPrompt { prompt, readkeys, values: RingBuffer::new() }
    }

    /// The current selection (or the raw buffer when there is none), with
    /// display markup stripped.
    pub fn current(&self) -> (r: String)
        requires
            self.wf(),
        ensures
            r@ == strip_escapes(self.spec_current()),
    {
        proof {
            self.values.lemma_wf_bounds();
        }
        let chosen = match self.values.current() {
            Some(v) => v.as_str().to_owned(),
            None => self.readkeys.value.clone(),
        };
        chosen.without_escape_codes()
    }

    /// The submission payload: the stripped selection plus a trailing
    /// space.
    pub fn padded(&self) -> (r: String)
        requires
            self.wf(),
        ensures
            r@ == self.spec_padded(),
    {
        let mut r = self.current();
        push_char(&mut r, ' ');
        r
    }

    /// The alternate submission payload: the raw buffer plus a trailing
    /// space.
    pub fn readkeys_padded(&self) -> (r: String)
        ensures
            r@ == self.spec_buffer_padded(),
    {
        let mut r = self.readkeys.value.clone();
        push_char(&mut r, ' ');
        r
    }

    /// A sole candidate that is not a directory is accepted outright.
    pub fn exit_on_tab(&self, current_is_dir: bool) -> (r: bool)
        ensures
            r == (self.values@.len() == 1 && !current_is_dir),
    {
        self.values.len() == 1 && !current_is_dir
    }

    /// A sole non-directory candidate present at startup is accepted
    /// immediately, without ever entering the interactive loop.
    pub fn initial_accept(&self, current_is_dir: bool) -> (r: Option<String>)
        requires
            self.wf(),
        ensures
            match r {
                Some(s) => self.values@.len() == 1 && !current_is_dir && s@ == self.spec_padded(),
                None => !(self.values@.len() == 1 && !current_is_dir),
            },
    {
        if self.exit_on_tab(current_is_dir) {
            Some(self.padded())
        } else {
            None
        }
    }

    /// Adopts the current candidate as the buffer (descending into
    /// directories rather than accepting them): with candidates present
    /// the stripped current candidate becomes the buffer; with none, the
    /// stripped buffer is re-adopted when it names a directory, else
    /// nothing changes. The caller recomputes candidates afterwards.
    pub fn tab_to_dir(&mut self, current_is_dir: bool)
        requires
            old(self).wf(),
        ensures
            final(self).wf(),
            final(self).values == old(self).values,
            final(self).prompt == old(self).prompt,
            final(self).readkeys.model() == if old(self).values@.len() > 0 || current_is_dir {
                st_set_value(
                    old(self).readkeys.model(),
                    strip_escapes(old(self).spec_current()),
                )
            } else {
                old(self).readkeys.model()
            },
    {
        let current = self.current();
        if current_is_dir {
            self.readkeys.set_value(current);
        } else {
            proof {
                self.values.lemma_wf_bounds();
            }
            match self.values.current() {
                Some(first) => {
                    let adopted = first.as_str().to_owned().without_escape_codes();
                    self.readkeys.set_value(adopted);
                },
                None => {},
            }
        }
    }

    /// One step of the control loop: the transition the event demands.
    /// Ending events produce `Cancel` or `Accept`; selection keys move the
    /// ring without recomputing; the mode-toggle key asks the caller to
    /// cycle the completer; a tab adopts or accepts the current candidate;
    /// every other event asks for a recompute against the updated buffer.
    pub fn step(&mut self, event: ReadEvent, current_is_dir: bool) -> (r: PromptAction)
        requires
            old(self).wf(),
        ensures
            final(self).wf(),
            final(self).prompt == old(self).prompt,
            match event {
                ReadEvent::Exit => r is Cancel && *final(self) == *old(self),
                ReadEvent::Submit => (r matches PromptAction::Accept(s) && s@ == old(self).spec_padded()) && *final(self) == *old(self),
                ReadEvent::Tab => {
                    if old(self).values@.len() == 1 && !current_is_dir {
                        (r matches PromptAction::Accept(s) && s@ == old(self).spec_padded())
                            && *final(self) == *old(self)
                    } else {
                        r is Recompute && final(self).values == old(self).values && final(self).readkeys.model() == (if old(self).values@.len() > 0 || current_is_dir {
                            st_set_value(
                                old(self).readkeys.model(),
                                strip_escapes(old(self).spec_current()),
                            )
                        } else {
                            old(self).readkeys.model()
                        })
                    }
                },
                ReadEvent::Key(k) => {
                    if k == Key::Ctrl('j') {
                        (r matches PromptAction::Accept(s) && s@ == old(self).spec_buffer_padded()) && *final(self) == *old(self)
                    } else if k == Key::Ctrl('n') || k == Key::Down {
                        r is Moved && final(self).readkeys == old(self).readkeys && final(self).values@ == old(self).values@ && final(self).values.cursor_index()
                            == step_forward(
                            old(self).values@.len() as int,
                            old(self).values.cursor_index(),
                        )
                    } else if k == Key::Ctrl('p') || k == Key::Up {
                        r is Moved && final(self).readkeys == old(self).readkeys && final(self).values@ == old(self).values@ && final(self).values.cursor_index()
                            == step_back(
                            old(self).values@.len() as int,
                            old(self).values.cursor_index(),
                        )
                    } else if k == Key::Null {
                        r is ToggleMode && *final(self) == *old(self)
                    } else {
                        r is Recompute && *final(self) == *old(self)
                    }
                },
                _ => r is Recompute && *final(self) == *old(self),
            },
    {
        match event {
            ReadEvent::Exit => PromptAction::Cancel,
            ReadEvent::Submit => PromptAction::Accept(self.padded()),
            ReadEvent::Tab => {
                if self.exit_on_tab(current_is_dir) {
                    PromptAction::Accept(self.padded())
                } else {
                    self.tab_to_dir(current_is_dir);
                    PromptAction::Recompute
                }
            },
            ReadEvent::Key(k) => {
                match k {
                    Key::Ctrl('j') => PromptAction::Accept(self.readkeys_padded()),
                    Key::Ctrl('n') => {
                        self.values.forward();
                        PromptAction::Moved
                    },
                    Key::Down => {
                        self.values.forward();
                        PromptAction::Moved
                    },
                    Key::Ctrl('p') => {
                        self.values.back();
                        PromptAction::Moved
                    },
                    Key::Up => {
                        self.values.back();
                        PromptAction::Moved
                    },
                    Key::Null => PromptAction::ToggleMode,
                    _ => PromptAction::Recompute,
                }
            },
            _ => PromptAction::Recompute,
        }
    }

    /// The prompt label rebuilt around the completer's current label:
    /// colored, then the label, a colon, and the color reset.
    pub fn update_prompt(&mut self, label: &str)
        requires
            old(self).wf(),
        ensures
            final(self).wf(),
            final(self).readkeys == old(self).readkeys,
            final(self).values == old(self).values,
            final(self).prompt@ == "\u{1b}[38;5;4m"@ + label@ + ": "@ + "\u{1b}[39m"@,
    {
        let mut p = "\u{1b}[38;5;4m".to_owned();
        p.append(label);
        p.append(": ");
        p.append("\u{1b}[39m");
        self.prompt = p;
    }

    /// The line the prompt is drawn with: clear the row, then the label
    /// and the live buffer.
    pub fn prompt_line(&self) -> (r: String)
        ensures
            r@ == "\u{1b}[2K"@ + self.prompt@ + self.readkeys.value@,
    {
        let mut line = "\u{1b}[2K".to_owned();
        line.append(self.prompt.as_str());
        line.append(self.readkeys.value.as_str());
        line
    }

    /// The dropdown's rows for one render pass: the first `max_lines`
    /// candidates from the selection onward, the first marked as current,
    /// the rest indented, blank rows padding out unused capacity, and an
    /// ellipsis marker on the last row when the candidates exceed it.
    pub fn dropdown_rows(&self, max_lines: usize) -> (r: Vec<String>)
        requires
            self.wf(),
        ensures
            r@.len() == max_lines,
            forall|j: int|
                0 <= j < max_lines ==> (#[trigger] r@[j])@ == (if self.values@.len() > max_lines
                    && j == max_lines - 1 {
                    "   ..."@
                } else if j < self.values@.len() {
                    (if j == 0 {
                        "-> "@
                    } else {
                        "   "@
                    }) + self.values@[ring_index(
                        self.values@.len() as int,
                        self.values.cursor_index(),
                        j,
                    )]@
                } else {
                    Seq::<char>::empty()
                }),
    {
        proof {
            self.values.lemma_wf_bounds();
        }
        let mut rows: Vec<String> = Vec::new();
        let mut it: RingBufferIter<String> = self.values.iter();
        let n = self.values.len();
        let mut j: usize = 0;
        while j < max_lines
            invariant
                j <= max_lines,
                n == self.values@.len(),
                self.wf(),
                rows@.len() == j,
                it.buffer_view() == self.values@,
                it.count() == if j < n {
                    j as int
                } else {
                    n as int
                },
                j < n ==> it.start_index() == ring_index(
                    n as int,
                    self.values.cursor_index(),
                    j as int,
                ),
                it.wf(),
                forall|i: int|
                    0 <= i < j ==> (#[trigger] rows@[i])@ == (if n > max_lines && i == max_lines
                        - 1 {
                        "   ..."@
                    } else if i < n {
                        (if i == 0 {
                            "-> "@
                        } else {
                            "   "@
                        }) + self.values@[ring_index(
                            n as int,
                            self.values.cursor_index(),
                            i,
                        )]@
                    } else {
                        Seq::<char>::empty()
                    }),
            decreases max_lines - j,
        {
            proof {
                self.values.lemma_wf_bounds();
            }
            let truncated = self.values.len() > max_lines && j == max_lines - 1;
            match it.next() {
                Some(line) => {
                    if truncated {
                        rows.push("   ...".to_owned());
                    } else {
                        let mut row = if j == 0 {
                            "-> ".to_owned()
                        } else {
                            "   ".to_owned()
                        };
                        row.append(line.as_str());
                        rows.push(row);
                    }
                },
                None => {
                    rows.push(String::new());
                },
            }
            j = j + 1;
        }
        rows
    }
}

} // verus!
