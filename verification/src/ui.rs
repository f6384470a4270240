//! View-side helpers that carry no terminal code: list-cell truncation and
//! the state of the password input overlay.  Key events reach the overlay
//! as the library's own `KeyPress` values; the caller translates its
//! terminal events into them and draws the overlay from the public fields.

use crate::text::push_char;
use vstd::prelude::*;
use vstd::string::StrSliceExecFns;
use vstd::string::StringExecFns;

verus! {

/// What `truncate_str` yields: `s` unchanged when it fits, else its first
/// `max_width - 1` characters with an ellipsis appended.
pub open spec fn spec_truncate(s: Seq<char>, max_width: int) -> Seq<char> {
    if s.len() <= max_width {
        s
    } else {
        s.take(if max_width > 0 {
            max_width - 1
        } else {
            0
        }) + seq!['…']
    }
}

/// Truncate a string to `max_width` characters, adding an ellipsis if
/// truncated.
pub fn truncate_str(s: &str, max_width: usize) -> (r: String)
    ensures
        r@ == spec_truncate(s@, max_width as int),
{
    let len = s.unicode_len();
    if len <= max_width {
        String::from_str(s)
    } else {
        let keep = if max_width > 0 {
            max_width - 1
        } else {
            0
        };
        proof {
            assert(s@.subrange(0, keep as int) =~= s@.take(keep as int));
        }
        let mut out = String::from_str(s.substring_char(0, keep));
        push_char(&mut out, '…');
        out
    }
}

/// A key event, as the overlay sees it.
#[derive(Debug, Clone, Copy, PartialEq, Eq, Structural)]
pub enum KeyPress {
    /// A printable character.
    Char(char),
    Enter,
    Escape,
    Backspace,
    /// Any other key; the overlay ignores it.
    Other,
}

/// Result of password input.
#[derive(Debug, Clone)]
pub enum PasswordInputResult {
    /// User submitted the password.
    Submit(String),
    /// User cancelled the input.
    Cancel,
}

/// Password input overlay for encrypted databases: a masked input buffer,
/// an optional error line and a prompt.
pub struct PasswordInputOverlay {
    /// Current password input buffer.
    pub password: String,
    /// Error message to display (if any).
    pub error_message: Option<String>,
    /// Prompt message.
    pub prompt: String,
    /// Whether the overlay is active.
    pub active: bool,
}

impl PasswordInputOverlay {
    /// Create a new password input overlay, active, with an empty buffer.
    pub fn new(prompt: String) -> (r: Self)
        ensures
            r.password@ == Seq::<char>::empty(),
            r.error_message is None,
            r.prompt@ == prompt@,
            r.active,
    {
        PasswordInputOverlay { password: String::new(), error_message: None, prompt, active: true }
    }

    /// Feed one key event: characters extend the buffer, backspace shortens
    /// it, enter submits a non-empty buffer (clearing it), and escape
    /// cancels.
    pub fn handle_key(&mut self, key: KeyPress) -> (r: Option<PasswordInputResult>)
        ensures
            final(self).prompt@ == old(self).prompt@,
            final(self).error_message == old(self).error_message,
            final(self).active == old(self).active,
            key matches KeyPress::Char(c) ==> final(self).password@ == old(self).password@ + seq![c] && r is None,
            key == KeyPress::Backspace ==> final(self).password@ == (if old(self).password@.len() > 0 {
                old(self).password@.drop_last()
            } else {
                old(self).password@
            }) && r is None,
            key == KeyPress::Enter && old(self).password@.len() > 0 ==> ((r matches Some(v) && (v
                matches PasswordInputResult::Submit(pw) && pw@ == old(self).password@)) && final(self).password@ == Seq::<char>::empty()),
            key == KeyPress::Enter && old(self).password@.len() == 0 ==> r is None && final(self).password@ == old(self).password@,
            key == KeyPress::Escape ==> ((r matches Some(v) && v
                matches PasswordInputResult::Cancel) && final(self).password@ == old(self).password@),
            key == KeyPress::Other ==> r is None && final(self).password@ == old(self).password@,
    {
        match key {
            KeyPress::Enter => {
                if self.password.as_str().unicode_len() > 0 {
                    let pw = self.password.clone();
                    self.password = String::new();
                    Some(PasswordInputResult::Submit(pw))
                } else {
                    None
                }
            },
            KeyPress::Escape => Some(PasswordInputResult::Cancel),
            KeyPress::Char(c) => {
                push_char(&mut self.password, c);
                None
            },
            KeyPress::Backspace => {
                let len = self.password.as_str().unicode_len();
                if len > 0 {
                    proof {
                        assert(self.password@.subrange(0, len - 1) =~= self.password@.drop_last());
                    }
                    let shorter = String::from_str(
                        self.password.as_str().substring_char(0, len - 1),
                    );
                    self.password = shorter;
                }
                None
            },
            KeyPress::Other => None,
        }
    }

    /// Set an error message and clear the buffer.
    pub fn set_error(&mut self, message: String)
        ensures
            final(self).error_message matches Some(m) && m@ == message@,
            final(self).password@ == Seq::<char>::empty(),
            final(self).prompt@ == old(self).prompt@,
            final(self).active == old(self).active,
    {
        self.error_message = Some(message);
        self.password = String::new();
    }

    /// Check if the overlay is active.
    pub fn is_active(&self) -> (r: bool)
        ensures
            r == self.active,
    {
        self.active
    }

    /// Deactivate the overlay.
    pub fn deactivate(&mut self)
        ensures
            !final(self).active,
            final(self).password@ == old(self).password@,
            final(self).error_message == old(self).error_message,
            final(self).prompt@ == old(self).prompt@,
    {
        self.active = false;
    }
}

} // verus!
