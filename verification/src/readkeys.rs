//! The readline-style line editor: a text buffer with a character-offset
//! cursor, an undo stack of snapshots, and a kill-ring of deleted spans.
//! Each incoming key event triggers exactly one editing operation; every
//! content-changing operation snapshots the editor for undo first, while
//! pure cursor motion does not; the distinguished outcomes (exit, submit,
//! tab, yank, or the raw key) are surfaced to the caller for dispatch.
//!
//! All offsets — the cursor, word boundaries, killed spans — are counted
//! in characters, the unit the contracts speak in, so no operation can
//! land inside a multi-byte encoding.

use vstd::prelude::*;

verus! {

use vstd::string::StrSliceExecFns;
use vstd::string::StringExecFns;
use crate::ring_buffer::{RingBuffer, step_forward};
use crate::util::{spec_is_separator, is_separator, chars_of};

/// A key, as the editor understands it; the terminal layer translates raw
/// input into these.
#[derive(Clone, Copy, Debug, PartialEq, Eq, Structural)]
pub enum Key {
    Backspace,
    Left,
    Right,
    Up,
    Down,
    Home,
    End,
    Null,
    Esc,
    Char(char),
    Ctrl(char),
    Alt(char),
    Other,
}

/// What a handled key meant, as surfaced to the caller.
#[derive(Clone, Copy, Debug, PartialEq, Eq, Structural)]
pub enum ReadEvent {
    Exit,
    Submit,
    CursorMove,
    Tab,
    Other,
    Yank,
    Key(Key),
}

/// A cursor motion.
#[derive(Clone, Copy, Debug, PartialEq, Eq, Structural)]
pub enum Goto {
    BeginningOfLine,
    EndOfLine,
    BackwardsCharacter,
    BackwardsWord,
    ForwardsCharacter,
    ForwardsWord,
}

/// A parameter character of a control sequence: a digit or a semicolon.
pub open spec fn is_csi_param(c: char) -> bool {
    c == ';' || (48 <= c as u32 <= 57)
}

/// The final character of a control sequence: an ASCII letter.
pub open spec fn is_csi_letter(c: char) -> bool {
    (65 <= c as u32 <= 90) || (97 <= c as u32 <= 122)
}

/// The index of the first character at or after `j` that is not a control
/// sequence parameter.
pub open spec fn skip_csi_params(s: Seq<char>, j: int) -> int
    decreases s.len() - j,
{
    if 0 <= j < s.len() && is_csi_param(s[j]) {
        skip_csi_params(s, j + 1)
    } else {
        j
    }
}

proof fn lemma_skip_csi_params_range(s: Seq<char>, j: int)
    requires
        0 <= j <= s.len(),
    ensures
        j <= skip_csi_params(s, j) <= s.len(),
    decreases s.len() - j,
{
    if j < s.len() && is_csi_param(s[j]) {
        lemma_skip_csi_params_range(s, j + 1);
    }
}

/// Whether a display control sequence starts at the front of `s`: an
/// escape, an opening bracket, parameters, and a final letter.
pub open spec fn csi_at_front(s: Seq<char>) -> bool {
    &&& s.len() >= 2
    &&& s[0] == '\u{1b}'
    &&& s[1] == '['
    &&& skip_csi_params(s, 2) < s.len()
    &&& is_csi_letter(s[skip_csi_params(s, 2)])
}

/// `s` with every display control sequence removed, scanning left to
/// right.
pub open spec fn strip_escapes(s: Seq<char>) -> Seq<char>
    decreases s.len(),
    when s.len() >= 0
    via strip_escapes_decreases
{
    if s.len() == 0 {
        s
    } else if csi_at_front(s) {
        strip_escapes(s.skip(skip_csi_params(s, 2) + 1))
    } else {
        seq![s[0]] + strip_escapes(s.skip(1))
    }
}

#[via_fn]
proof fn strip_escapes_decreases(s: Seq<char>) {
    if s.len() > 0 && csi_at_front(s) {
        lemma_skip_csi_params_range(s, 2);
    }
}

/// Text as it is printed: its width on screen, and the text with display
/// control sequences removed.
pub trait Printable: View<V = Seq<char>> + Sized {
    /// The number of characters the terminal will show.
    fn width(&self) -> (r: usize)
        ensures
            r == strip_escapes(self.view()).len(),
    ;

    /// The text with every display control sequence removed.
    fn without_escape_codes(&self) -> (r: Self)
        ensures
            r.view() == strip_escapes(self.view()),
    ;
}

impl Printable for String {
    fn width(&self) -> (r: usize)
        ensures
            r == strip_escapes(self.view()).len(),
    {
        let stripped = self.without_escape_codes();
        stripped.as_str().unicode_len()
    }

    fn without_escape_codes(&self) -> (r: Self)
        ensures
            r.view() == strip_escapes(self.view()),
    {
        let cs = chars_of(self.as_str());
        let n = cs.len();
        let mut out: Vec<char> = Vec::new();
        let mut i: usize = 0;
        proof {
            assert(self@.skip(0) =~= self@);
        }
        while i < n
            invariant
                i <= n,
                n == self@.len(),
                cs@ == self@,
                strip_escapes(self@) == out@ + strip_escapes(self@.skip(i as int)),
            decreases n - i,
        {
            let ghost tail = self@.skip(i as int);
            let mut consumed = false;
            if cs[i] == '\u{1b}' && i + 1 < n && cs[i + 1] == '[' {
                let mut j = i + 2;
                while j < n && is_csi_param_exec(cs[j])
                    invariant
                        i + 2 <= j <= n,
                        n == self@.len(),
                        cs@ == self@,
                        tail == self@.skip(i as int),
                        i + 1 < n,
                        skip_csi_params(tail, 2) == skip_csi_params(tail, j - i),
                    decreases n - j,
                {
                    proof {
                        assert(tail[j - i] == self@[j as int]);
                    }
                    j = j + 1;
                }
                proof {
                    if j < n {
                        assert(tail[j - i] == self@[j as int]);
                    }
                    assert(skip_csi_params(tail, 2) == j - i);
                }
                if j < n && is_csi_letter_exec(cs[j]) {
                    proof {
                        assert(csi_at_front(tail));
                        assert(tail.skip(skip_csi_params(tail, 2) + 1) =~= self@.skip(j + 1));
                    }
                    i = j + 1;
                    consumed = true;
                }
            }
            if !consumed {
                let ghost before = out@;
                out.push(cs[i]);
                proof {
                    assert(!csi_at_front(tail)) by {
                        if tail.len() >= 2 && tail[0] == '\u{1b}' && tail[1] == '[' {
                            assert(self@[i + 1] == tail[1]);
                        }
                    }
                    assert(tail[0] == self@[i as int]);
                    assert(tail.skip(1) =~= self@.skip(i + 1));
                    assert(before + (seq![self@[i as int]] + strip_escapes(self@.skip(i + 1)))
                        =~= out@ + strip_escapes(self@.skip(i + 1)));
                }
                i = i + 1;
            }
        }
        proof {
            assert(self@.skip(n as int) =~= Seq::<char>::empty());
            assert(strip_escapes(Seq::<char>::empty()) =~= Seq::<char>::empty());
            assert(out@ + Seq::<char>::empty() =~= out@);
        }
        crate::util::string_of(&out)
    }
}

/// A parameter character of a control sequence.
fn is_csi_param_exec(c: char) -> (r: bool)
    ensures
        r == is_csi_param(c),
{
    c == ';' || (c as u32 >= 48 && c as u32 <= 57)
}

/// The final character of a control sequence.
fn is_csi_letter_exec(c: char) -> (r: bool)
    ensures
        r == is_csi_letter(c),
{
    (c as u32 >= 65 && c as u32 <= 90) || (c as u32 >= 97 && c as u32 <= 122)
}

/// A snapshot of the editable state, pushed before each destructive edit.
pub struct ReadkeysState {
    pub value: String,
    pub cursor: usize,
}

/// The line editor.
pub struct Readkeys {
    pub value: String,
    pub cursor: usize,
    pub state_history: Vec<ReadkeysState>,
    pub kill_ring: RingBuffer<String>,
    pub last_event: ReadEvent,
}

/// The editor's state, at the specification level.
pub ghost struct EdState {
    pub value: Seq<char>,
    pub cursor: int,
    pub history: Seq<(Seq<char>, int)>,
    pub kill: Seq<Seq<char>>,
    pub kill_cursor: int,
    pub last: ReadEvent,
}

/// The index after stepping back over the separators that end `s[..j]`.
pub open spec fn skip_seps_back(s: Seq<char>, j: int) -> int
    decreases j,
{
    if 0 < j <= s.len() && spec_is_separator(s[j - 1]) {
        skip_seps_back(s, j - 1)
    } else {
        j
    }
}

/// The index after stepping back over the word that ends `s[..j]`.
pub open spec fn skip_word_back(s: Seq<char>, j: int) -> int
    decreases j,
{
    if 0 < j <= s.len() && !spec_is_separator(s[j - 1]) {
        skip_word_back(s, j - 1)
    } else {
        j
    }
}

/// Where the word-wise backward motion from `cursor` lands: the start of
/// the last token before the cursor, or the cursor itself when only
/// separators (or nothing) precede it.
pub open spec fn prev_word_start(s: Seq<char>, cursor: int) -> int {
    let a = skip_seps_back(s, cursor);
    if a == 0 {
        cursor
    } else {
        skip_word_back(s, a)
    }
}

/// The index after stepping forward over the separators from `j` on.
pub open spec fn skip_seps_fwd(s: Seq<char>, j: int) -> int
    decreases s.len() - j,
{
    if 0 <= j < s.len() && spec_is_separator(s[j]) {
        skip_seps_fwd(s, j + 1)
    } else {
        j
    }
}

/// The index after stepping forward over the word from `j` on.
pub open spec fn skip_word_fwd(s: Seq<char>, j: int) -> int
    decreases s.len() - j,
{
    if 0 <= j < s.len() && !spec_is_separator(s[j]) {
        skip_word_fwd(s, j + 1)
    } else {
        j
    }
}

/// Where the word-wise forward motion from `cursor` lands: the end of the
/// first token at or after the cursor, or the cursor itself when only
/// separators follow it.
pub open spec fn next_word_end(s: Seq<char>, cursor: int) -> int {
    let b = skip_seps_fwd(s, cursor);
    if b == s.len() {
        cursor
    } else {
        skip_word_fwd(s, b)
    }
}

/// `ins` inserted into `v` at `cur`.
pub open spec fn spec_insert_at(v: Seq<char>, cur: int, ins: Seq<char>) -> Seq<char> {
    v.take(cur) + ins + v.skip(cur)
}

/// A snapshot of the editable state pushed onto the undo stack.
pub open spec fn st_push(s: EdState) -> EdState {
    EdState { history: s.history.push((s.value, s.cursor)), ..s }
}

/// Insertion at the cursor; the cursor advances past what was inserted.
pub open spec fn st_write(s: EdState, ins: Seq<char>) -> EdState {
    EdState { value: spec_insert_at(s.value, s.cursor, ins), cursor: s.cursor + ins.len(), ..s }
}

/// A single-character backspace: a no-op (beyond the undo snapshot) at the
/// start of the line.
pub open spec fn st_backspace(s: EdState) -> EdState {
    let t = st_push(s);
    if s.cursor > 0 {
        EdState {
            value: s.value.take(s.cursor - 1) + s.value.skip(s.cursor),
            cursor: s.cursor - 1,
            ..t
        }
    } else {
        t
    }
}

/// A span pushed onto the kill-ring: the ring cursor advances and the span
/// is inserted there, becoming the current entry.
pub open spec fn st_kill_push(s: EdState, span: Seq<char>) -> EdState {
    let kc = step_forward(s.kill.len() as int, s.kill_cursor);
    EdState { kill: s.kill.insert(kc, span), kill_cursor: kc, ..s }
}

/// Word-wise backward delete: the span from the previous word start to the
/// cursor moves onto the kill-ring, and the cursor lands on the boundary.
pub open spec fn st_backspace_word(s: EdState) -> EdState {
    let start = prev_word_start(s.value, s.cursor);
    let t = st_kill_push(st_push(s), s.value.subrange(start, s.cursor));
    EdState { value: s.value.take(start) + s.value.skip(s.cursor), cursor: start, ..t }
}

/// Kill-before-cursor: everything before the cursor moves onto the
/// kill-ring and the cursor lands at the start of the line.
pub open spec fn st_kill_before(s: EdState) -> EdState {
    let t = st_kill_push(st_push(s), s.value.take(s.cursor));
    EdState { value: s.value.skip(s.cursor), cursor: 0, ..t }
}

/// Kill-after-cursor: everything after the cursor moves onto the
/// kill-ring; the cursor stays at the boundary.
pub open spec fn st_kill_after(s: EdState) -> EdState {
    let t = st_kill_push(st_push(s), s.value.skip(s.cursor));
    EdState { value: s.value.take(s.cursor), ..t }
}

/// Undo: the most recent snapshot is popped and restored, or the editor
/// resets to empty once the stack is exhausted.
pub open spec fn st_pop(s: EdState) -> EdState {
    if s.history.len() > 0 {
        EdState {
            value: s.history.last().0,
            cursor: s.history.last().1,
            history: s.history.drop_last(),
            ..s
        }
    } else {
        EdState { value: Seq::empty(), cursor: 0, ..s }
    }
}

/// Yank: the kill-ring's current entry is inserted at the cursor, after an
/// undo snapshot; a no-op when the ring is empty. Marks the event as a
/// yank.
pub open spec fn st_yank(s: EdState) -> EdState {
    if s.kill.len() > 0 {
        EdState { last: ReadEvent::Yank, ..st_write(st_push(s), s.kill[s.kill_cursor]) }
    } else {
        s
    }
}

/// Yank-next: only directly after a yank, the yank is undone, the
/// kill-ring rotates forward, and the new current entry is yanked.
pub open spec fn st_yank_next(s: EdState) -> EdState {
    if s.last is Yank {
        let t = st_pop(s);
        let rotated = EdState {
            kill_cursor: step_forward(t.kill.len() as int, t.kill_cursor),
            ..t
        };
        st_yank(rotated)
    } else {
        s
    }
}

/// Pure cursor motion is never undo-worthy: it changes neither the buffer
/// nor the undo stack nor the kill-ring.
pub proof fn lemma_motion_is_not_destructive(s: EdState, to: Goto)
    ensures
        st_move(s, to).value == s.value,
        st_move(s, to).history == s.history,
        st_move(s, to).kill == s.kill,
{
}

/// Yanking and then yanking the next entry never compounds insertions:
/// the yank-next first returns the buffer to its state before the first
/// yank, and only then inserts the next kill-ring entry there.
pub proof fn lemma_yank_then_yank_next(s: EdState)
    requires
        s.kill.len() > 0,
    ensures
        st_pop(st_yank(s)).value == s.value,
        st_pop(st_yank(s)).cursor == s.cursor,
        st_yank_next(st_yank(s)).value == spec_insert_at(
            s.value,
            s.cursor,
            s.kill[step_forward(s.kill.len() as int, st_yank(s).kill_cursor)],
        ),
        st_yank_next(st_yank(s)).cursor == s.cursor + s.kill[step_forward(
            s.kill.len() as int,
            st_yank(s).kill_cursor,
        )].len(),
{
    let y1 = st_yank(s);
    assert(y1.history == s.history.push((s.value, s.cursor)));
    assert(y1.history.last() == (s.value, s.cursor));
    assert(st_pop(y1).history =~= s.history);
}

/// Cursor motion; the buffer itself never changes.
pub open spec fn st_move(s: EdState, to: Goto) -> EdState {
    let c = match to {
        Goto::BeginningOfLine => 0int,
        Goto::EndOfLine => s.value.len() as int,
        Goto::BackwardsCharacter => if s.cursor > 0 {
            s.cursor - 1
        } else {
            0int
        },
        Goto::BackwardsWord => prev_word_start(s.value, s.cursor),
        Goto::ForwardsCharacter => if s.cursor < s.value.len() {
            s.cursor + 1
        } else {
            s.value.len() as int
        },
        Goto::ForwardsWord => next_word_end(s.value, s.cursor),
    };
    EdState { cursor: c, ..s }
}

/// The buffer replaced outright, with the cursor at the end of the line.
pub open spec fn st_set_value(s: EdState, v: Seq<char>) -> EdState {
    EdState { value: v, cursor: v.len() as int, ..s }
}

/// What a key event means: cancel, submit, tab and yank keys are
/// distinguished; the end-of-input key cancels only on an empty buffer;
/// every other key passes through as itself.
pub open spec fn spec_event_for(s: EdState, key: Key) -> ReadEvent {
    match key {
        Key::Ctrl(c) => if c == 'c' {
            ReadEvent::Exit
        } else if c == 'd' && s.value.len() == 0 {
            ReadEvent::Exit
        } else if c == 'y' {
            ReadEvent::Yank
        } else {
            ReadEvent::Key(key)
        },
        Key::Alt(c) => if c == 'y' {
            ReadEvent::Yank
        } else {
            ReadEvent::Key(key)
        },
        Key::Char(c) => if c == '\n' {
            ReadEvent::Submit
        } else if c == '\t' {
            ReadEvent::Tab
        } else {
            ReadEvent::Key(key)
        },
        _ => ReadEvent::Key(key),
    }
}

/// The editing operation a key triggers, before the event is recorded.
pub open spec fn st_base_effect(s: EdState, key: Key) -> EdState {
    match key {
        Key::Backspace => st_backspace(s),
        Key::Left => st_move(s, Goto::BackwardsCharacter),
        Key::Right => st_move(s, Goto::ForwardsCharacter),
        Key::Char(c) => if c == '\n' || c == '\t' {
            s
        } else {
            // a content change: snapshotted for undo before it applies
            st_write(st_push(s), seq![c])
        },
        Key::Ctrl(c) => if c == 'h' {
            st_backspace(s)
        } else if c == 'e' {
            st_move(s, Goto::EndOfLine)
        } else if c == 'a' {
            st_move(s, Goto::BeginningOfLine)
        } else if c == 'b' {
            st_move(s, Goto::BackwardsCharacter)
        } else if c == 'f' {
            st_move(s, Goto::ForwardsCharacter)
        } else if c == '7' {
            st_pop(s)
        } else if c == 'u' {
            st_kill_before(s)
        } else if c == 'k' {
            st_kill_after(s)
        } else if c == 'y' {
            st_yank(s)
        } else {
            s
        },
        Key::Alt(c) => if c == 'b' {
            st_move(s, Goto::BackwardsWord)
        } else if c == 'f' {
            st_move(s, Goto::ForwardsWord)
        } else if c == '\u{7f}' {
            st_backspace_word(s)
        } else if c == 'y' {
            st_yank_next(s)
        } else {
            s
        },
        _ => s,
    }
}

/// One key handled: the operation it triggers, with the event it meant
/// recorded as the last event.
pub open spec fn st_handle_key(s: EdState, key: Key) -> EdState {
    EdState { last: spec_event_for(s, key), ..st_base_effect(s, key) }
}

/// Inserting a span into the kill-ring, seen through the ring's view: the
/// mapped views gain the span's view at the stepped-forward cursor.
proof fn lemma_kill_insert(before: Seq<String>, after: Seq<String>, kc_before: int, spanv: Seq<char>)
    requires
        0 <= kc_before,
        before.len() == 0 ==> kc_before == 0,
        before.len() > 0 ==> kc_before < before.len(),
        exists|span: String|
            span@ == spanv && after == before.insert(
                step_forward(before.len() as int, kc_before),
                span,
            ),
    ensures
        after.map_values(|s: String| s@) == before.map_values(|s: String| s@).insert(
            step_forward(before.len() as int, kc_before),
            spanv,
        ),
{
    let kc = step_forward(before.len() as int, kc_before);
    let span = choose|span: String|
        span@ == spanv && after == before.insert(kc, span);
    before.insert_ensures(kc, span);
    before.map_values(|s: String| s@).insert_ensures(kc, spanv);
    let lhs = after.map_values(|s: String| s@);
    let rhs = before.map_values(|s: String| s@).insert(kc, spanv);
    assert forall|j: int| 0 <= j < lhs.len() implies lhs[j] == rhs[j] by {
        if j < kc {
        } else if j == kc {
        } else {
            assert(before.insert(kc, span)[j] == before[j - 1]);
            assert(before.map_values(|s: String| s@).insert(kc, spanv)[j] == before.map_values(
                |s: String| s@,
            )[j - 1]);
        }
    }
    assert(lhs =~= rhs);
}

impl Readkeys {
    /// The editor's state, at the specification level.
    pub open spec fn model(&self) -> EdState {
        EdState {
            value: self.value@,
            cursor: self.cursor as int,
            history: self.state_history@.map_values(
                |st: ReadkeysState| (st.value@, st.cursor as int),
            ),
            kill: self.kill_ring@.map_values(|s: String| s@),
            kill_cursor: self.kill_ring.cursor_index(),
            last: self.last_event,
        }
    }

    /// The cursor is a valid character offset, every snapshot's is too,
    /// and the kill-ring is well formed.
    pub open spec fn wf(&self) -> bool {
        &&& self.cursor <= self.value@.len()
        &&& self.kill_ring.wf()
        &&& forall|i: int|
            0 <= i < self.state_history@.len() ==> (#[trigger] self.state_history@[i]).cursor
                <= self.state_history@[i].value@.len()
    }

    /// A fresh editor over a starting buffer, with the cursor at the end
    /// of the line, an empty undo stack and an empty kill-ring.
    pub fn new(value: String) -> (r: Self)
        ensures
            r.wf(),
            r.model().value == value@,
            r.model().cursor == value@.len(),
            r.model().history.len() == 0,
            r.model().kill.len() == 0,
            r.model().last is Other,
    {
        let cursor = value.as_str().unicode_len();
        let r = Readkeys {
            cursor,
            state_history: Vec::new(),
            kill_ring: RingBuffer::new(),
            last_event: ReadEvent::Other,
            value,
        };
        proof {
            assert(r.model().history =~= Seq::<(Seq<char>, int)>::empty());
            assert(r.model().kill =~= Seq::<Seq<char>>::empty());
        }
        r
    }

    fn push_state(&mut self)
        requires
            old(self).wf(),
        ensures
            final(self).wf(),
            final(self).model() == st_push(old(self).model()),
    {
        let snap = ReadkeysState { value: self.value.clone(), cursor: self.cursor };
        self.state_history.push(snap);
        proof {
            assert(self.model().history =~= st_push(old(self).model()).history);
        }
    }

    /// Inserts text at the cursor; the cursor advances past it.
    pub fn write(&mut self, value: &str)
        requires
            old(self).wf(),
        ensures
            final(self).wf(),
            final(self).model() == st_write(old(self).model(), value@),
    {
        let n = self.value.as_str().unicode_len();
        let head = self.value.as_str().substring_char(0, self.cursor).to_owned();
        let tail = self.value.as_str().substring_char(self.cursor, n).to_owned();
        let mut new_value = head;
        new_value.append(value);
        new_value.append(tail.as_str());
        let ins_len = value.unicode_len();
        let total = new_value.as_str().unicode_len();
        proof {
            assert(new_value@ =~= spec_insert_at(old(self).model().value, old(self).model().cursor, value@));
            assert(total == old(self).model().value.len() + value@.len());
        }
        self.value = new_value;
        self.cursor = self.cursor + ins_len;
    }

    /// Removes the character before the cursor, when there is one; always
    /// snapshots for undo first.
    pub fn backspace(&mut self)
        requires
            old(self).wf(),
        ensures
            final(self).wf(),
            final(self).model() == st_backspace(old(self).model()),
    {
        self.push_state();
        if self.cursor > 0 {
            let n = self.value.as_str().unicode_len();
            let head = self.value.as_str().substring_char(0, self.cursor - 1).to_owned();
            let tail = self.value.as_str().substring_char(self.cursor, n).to_owned();
            let mut new_value = head;
            new_value.append(tail.as_str());
            self.value = new_value;
            self.cursor = self.cursor - 1;
            proof {
                assert(self.model().value =~= old(self).model().value.take(
                    old(self).model().cursor - 1,
                ) + old(self).model().value.skip(old(self).model().cursor));
            }
        }
    }

    /// Restores the most recent snapshot, or resets to an empty buffer
    /// once the undo stack is exhausted.
    pub fn pop_state(&mut self)
        requires
            old(self).wf(),
        ensures
            final(self).wf(),
            final(self).model() == st_pop(old(self).model()),
    {
        match self.state_history.pop() {
            Some(state) => {
                self.value = state.value;
                self.cursor = state.cursor;
                proof {
                    assert(self.model().history =~= st_pop(old(self).model()).history);
                }
            },
            None => {
                self.value = String::new();
                self.cursor = 0;
            },
        }
    }

    /// Replaces the buffer outright and puts the cursor at the end of the
    /// line.
    pub fn set_value(&mut self, value: String)
        requires
            old(self).wf(),
        ensures
            final(self).wf(),
            final(self).model() == st_set_value(old(self).model(), value@),
    {
        self.cursor = value.as_str().unicode_len();
        self.value = value;
    }

    /// Moves the cursor; the buffer itself never changes, and single-step
    /// motion clamps to the buffer bounds.
    pub fn move_cursor(&mut self, to: Goto)
        requires
            old(self).wf(),
        ensures
            final(self).wf(),
            final(self).model() == st_move(old(self).model(), to),
    {
        match to {
            Goto::BeginningOfLine => {
                self.cursor = 0;
            },
            Goto::EndOfLine => {
                self.cursor = self.value.as_str().unicode_len();
            },
            Goto::BackwardsCharacter => {
                if self.cursor > 0 {
                    self.cursor = self.cursor - 1;
                }
            },
            Goto::BackwardsWord => {
                self.cursor = self.previous_word_start();
            },
            Goto::ForwardsCharacter => {
                if self.cursor < self.value.as_str().unicode_len() {
                    self.cursor = self.cursor + 1;
                }
            },
            Goto::ForwardsWord => {
                self.cursor = self.next_word_end();
            },
        }
    }

    /// The span before the cursor, starting at `start`, moves onto the
    /// kill-ring.
    fn kill_span_before(&mut self, start: usize)
        requires
            old(self).wf(),
            start <= old(self).cursor,
        ensures
            final(self).wf(),
            final(self).model() == st_kill_push(
                old(self).model(),
                old(self).model().value.subrange(start as int, old(self).cursor as int),
            ),
            final(self).value == old(self).value,
            final(self).cursor == old(self).cursor,
            final(self).state_history == old(self).state_history,
            final(self).last_event == old(self).last_event,
    {
        let span = self.value.as_str().substring_char(start, self.cursor).to_owned();
        let ghost spanv = span@;
        let ghost ring_before = self.kill_ring@;
        let ghost kill_before = self.model().kill;
        let ghost kc_before = self.model().kill_cursor;
        proof {
            old(self).kill_ring.lemma_wf_bounds();
        }
        self.kill_ring.insert(span);
        proof {
            lemma_kill_insert(ring_before, self.kill_ring@, kc_before, spanv);
            assert(self.model().kill =~= kill_before.insert(
                step_forward(kill_before.len() as int, kc_before),
                spanv,
            ));
        }
    }

    /// Word-wise backward delete: the span from the previous word start to
    /// the cursor moves onto the kill-ring, and the cursor lands on the
    /// boundary; snapshots for undo first.
    pub fn backspace_word(&mut self)
        requires
            old(self).wf(),
        ensures
            final(self).wf(),
            final(self).model() == st_backspace_word(old(self).model()),
    {
        self.push_state();
        let start = self.previous_word_start();
        self.kill_span_before(start);
        let n = self.value.as_str().unicode_len();
        let head = self.value.as_str().substring_char(0, start).to_owned();
        let tail = self.value.as_str().substring_char(self.cursor, n).to_owned();
        let mut new_value = head;
        new_value.append(tail.as_str());
        self.value = new_value;
        self.cursor = start;
        proof {
            assert(self.model().value =~= old(self).model().value.take(start as int) + old(
                self,
            ).model().value.skip(old(self).model().cursor));
        }
    }

    /// Kill-before-cursor: everything before the cursor moves onto the
    /// kill-ring and the cursor lands at the start of the line; snapshots
    /// for undo first.
    pub fn kill_before_cursor(&mut self)
        requires
            old(self).wf(),
        ensures
            final(self).wf(),
            final(self).model() == st_kill_before(old(self).model()),
    {
        self.push_state();
        self.kill_span_before(0);
        let n = self.value.as_str().unicode_len();
        let tail = self.value.as_str().substring_char(self.cursor, n).to_owned();
        self.value = tail;
        self.cursor = 0;
        proof {
            assert(old(self).model().value.subrange(0, old(self).cursor as int) =~= old(
                self,
            ).model().value.take(old(self).cursor as int));
            assert(self.model().value =~= old(self).model().value.skip(old(self).cursor as int));
        }
    }

    /// Kill-after-cursor: everything after the cursor moves onto the
    /// kill-ring; the cursor stays at the boundary; snapshots for undo
    /// first.
    pub fn kill_after_cursor(&mut self)
        requires
            old(self).wf(),
        ensures
            final(self).wf(),
            final(self).model() == st_kill_after(old(self).model()),
    {
        self.push_state();
        let ghost pre = self.model();
        let n = self.value.as_str().unicode_len();
        let span = self.value.as_str().substring_char(self.cursor, n).to_owned();
        let ghost spanv = span@;
        let ghost ring_before = self.kill_ring@;
        let ghost kill_before = self.model().kill;
        let ghost kc_before = self.model().kill_cursor;
        proof {
            old(self).kill_ring.lemma_wf_bounds();
        }
        self.kill_ring.insert(span);
        let head = self.value.as_str().substring_char(0, self.cursor).to_owned();
        self.value = head;
        proof {
            lemma_kill_insert(ring_before, self.kill_ring@, kc_before, spanv);
            assert(self.model().kill =~= kill_before.insert(
                step_forward(kill_before.len() as int, kc_before),
                spanv,
            ));
            assert(self.model().value =~= old(self).model().value.take(old(self).cursor as int));
        }
    }

    /// Yank: inserts the kill-ring's current entry at the cursor, after an
    /// undo snapshot, and marks the event as a yank; a no-op when the ring
    /// is empty.
    pub fn yank(&mut self)
        requires
            old(self).wf(),
        ensures
            final(self).wf(),
            final(self).model() == st_yank(old(self).model()),
    {
        proof {
            old(self).kill_ring.lemma_wf_bounds();
        }
        let yanked = match self.kill_ring.current() {
            Some(y) => Some(y.as_str().to_owned()),
            None => None,
        };
        match yanked {
            Some(y) => {
                self.push_state();
                self.write(y.as_str());
                self.last_event = ReadEvent::Yank;
            },
            None => {},
        }
    }

    /// Yank-next: only directly after a yank, undoes that yank, rotates
    /// the kill-ring forward, and yanks the new current entry.
    pub fn yank_next(&mut self)
        requires
            old(self).wf(),
        ensures
            final(self).wf(),
            final(self).model() == st_yank_next(old(self).model()),
    {
        match self.last_event {
            ReadEvent::Yank => {
                self.pop_state();
                self.kill_ring.rotate();
                self.yank();
            },
            _ => {},
        }
    }

    /// Handles one key event: exactly one editing operation (or none, for
    /// keys with no editing meaning) runs, and the event it meant is both
    /// recorded and returned. Keys with no editing meaning pass through
    /// unchanged for the caller to dispatch.
    pub fn handle_key(&mut self, key: Key) -> (r: ReadEvent)
        requires
            old(self).wf(),
        ensures
            final(self).wf(),
            r == spec_event_for(old(self).model(), key),
            final(self).model() == st_handle_key(old(self).model(), key),
    {
        let mut event = ReadEvent::Key(key);
        match key {
            Key::Ctrl('c') => {
                event = ReadEvent::Exit;
            },
            Key::Char('\n') => {
                event = ReadEvent::Submit;
            },
            Key::Char('\t') => {
                event = ReadEvent::Tab;
            },
            Key::Ctrl('d') => {
                if self.value.as_str().unicode_len() == 0 {
                    event = ReadEvent::Exit;
                }
            },
            Key::Backspace => {
                self.backspace();
            },
            Key::Ctrl('h') => {
                self.backspace();
            },
            Key::Ctrl('e') => {
                self.move_cursor(Goto::EndOfLine);
            },
            Key::Ctrl('a') => {
                self.move_cursor(Goto::BeginningOfLine);
            },
            Key::Ctrl('b') => {
                self.move_cursor(Goto::BackwardsCharacter);
            },
            Key::Left => {
                self.move_cursor(Goto::BackwardsCharacter);
            },
            Key::Alt('b') => {
                self.move_cursor(Goto::BackwardsWord);
            },
            Key::Alt('f') => {
                self.move_cursor(Goto::ForwardsWord);
            },
            Key::Ctrl('f') => {
                self.move_cursor(Goto::ForwardsCharacter);
            },
            Key::Right => {
                self.move_cursor(Goto::ForwardsCharacter);
            },
            Key::Alt('\u{7f}') => {
                self.backspace_word();
            },
            Key::Ctrl('7') => {
                self.pop_state();
            },
            Key::Ctrl('u') => {
                self.kill_before_cursor();
            },
            Key::Ctrl('k') => {
                self.kill_after_cursor();
            },
            Key::Char(c) => {
                let mut s = String::new();
                crate::util::push_char(&mut s, c);
                proof {
                    assert(s@ =~= seq![c]);
                }
                self.push_state();
                self.write(s.as_str());
            },
            Key::Ctrl('y') => {
                self.yank();
                event = ReadEvent::Yank;
            },
            Key::Alt('y') => {
                self.yank_next();
                event = ReadEvent::Yank;
            },
            _ => {},
        }
        self.last_event = event;
        event
    }

    /// The landing point of word-wise backward motion from the cursor.
    fn previous_word_start(&self) -> (r: usize)
        requires
            self.wf(),
        ensures
            r as int == prev_word_start(self.value@, self.cursor as int),
            r <= self.value@.len(),
            r <= self.cursor,
    {
        let cs = chars_of(self.value.as_str());
        let mut a = self.cursor;
        while a > 0 && is_separator(cs[a - 1])
            invariant
                a <= self.cursor,
                self.cursor <= cs@.len(),
                cs@ == self.value@,
                skip_seps_back(self.value@, self.cursor as int) == skip_seps_back(
                    self.value@,
                    a as int,
                ),
            decreases a,
        {
            a = a - 1;
        }
        if a == 0 {
            return self.cursor;
        }
        let mut w = a;
        while w > 0 && !is_separator(cs[w - 1])
            invariant
                w <= a,
                a <= cs@.len(),
                cs@ == self.value@,
                skip_word_back(self.value@, a as int) == skip_word_back(self.value@, w as int),
            decreases w,
        {
            w = w - 1;
        }
        w
    }

    /// The landing point of word-wise forward motion from the cursor.
    fn next_word_end(&self) -> (r: usize)
        requires
            self.wf(),
        ensures
            r as int == next_word_end(self.value@, self.cursor as int),
            r <= self.value@.len(),
    {
        let cs = chars_of(self.value.as_str());
        let n = cs.len();
        let mut b = self.cursor;
        while b < n && is_separator(cs[b])
            invariant
                self.cursor <= b <= n,
                n == cs@.len(),
                cs@ == self.value@,
                skip_seps_fwd(self.value@, self.cursor as int) == skip_seps_fwd(
                    self.value@,
                    b as int,
                ),
            decreases n - b,
        {
            b = b + 1;
        }
        if b == n {
            return self.cursor;
        }
        let mut w = b;
        while w < n && !is_separator(cs[w])
            invariant
                b <= w <= n,
                n == cs@.len(),
                cs@ == self.value@,
                skip_word_fwd(self.value@, b as int) == skip_word_fwd(self.value@, w as int),
            decreases n - w,
        {
            w = w + 1;
        }
        w
    }
}

} // verus!
