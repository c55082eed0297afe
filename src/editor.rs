//! The line-editing rules: how each key changes the line being typed, and what is done with a
//! committed line.
use vstd::prelude::*;

use crate::trie::Trie;

verus! {

/// A key press, as far as the editor tells keys apart.
#[derive(Clone, Copy, PartialEq, Eq, Debug)]
pub enum Key {
    /// A character to append to the line.
    Char(char),
    /// Commit the line.
    Enter,
    /// Delete the last character.
    Backspace,
    /// Delete the last word.
    WordBackspace,
    /// List the entries of the history that extend the line.
    Tab,
    /// Leave at once.
    Interrupt,
    /// Any key the editor ignores.
    Other,
}

/// What the display has to do after a key press.
#[derive(PartialEq, Eq, Debug)]
pub enum Action {
    /// Print this character after the line.
    Echo(char),
    /// Move the cursor left by this many columns and clear up to the end of the line.
    Erase(usize),
    /// Clear the whole line and print the prompt again.
    Redraw,
    /// List the entries of the history that extend the line, then print the prompt and the line
    /// again.
    Complete,
    /// The line is done; here it is.
    Submit(String),
    /// Leave the program.
    Exit,
    /// Nothing to do.
    Nothing,
}

/// The line being typed. The cursor always stands at its end.
pub struct LineEditor {
    buffer: Vec<char>,
}

/// Relies on `String`'s `FromIterator<&char>`: the string holds the characters in order.
#[verifier::external_body]
fn string_of(chars: &Vec<char>) -> (r: String)
    ensures
        r@ == chars@,
{
    chars.iter().collect()
}

/// Deleting the last word of `s` leaves `t`: the part before the last space of `s`, or nothing
/// when `s` has no space.
pub open spec fn without_last_word(s: Seq<char>, t: Seq<char>) -> bool {
    if exists|k: int| 0 <= k < s.len() && s[k] == ' ' {
        &&& t.len() < s.len()
        &&& s[t.len() as int] == ' '
        &&& t == s.subrange(0, t.len() as int)
        &&& forall|j: int| t.len() < j < s.len() ==> s[j] != ' '
    } else {
        t.len() == 0
    }
}

impl LineEditor {
    /// The characters of the line.
    pub closed spec fn line(self) -> Seq<char> {
        self.buffer@
    }

    /// An editor with an empty line.
    pub fn new() -> (r: LineEditor)
        ensures
            r.line() == Seq::<char>::empty(),
    {
        LineEditor { buffer: Vec::new() }
    }

    /// The line as a string.
    pub fn text(&self) -> (r: String)
        ensures
            r@ == self.line(),
    {
        string_of(&self.buffer)
    }

    /// Deletes the last word and the space before it; with no space, the whole line. Returns
    /// the number of characters deleted when a space was found.
    pub fn delete_last_word(&mut self) -> (r: Option<usize>)
        ensures
            without_last_word(old(self).line(), final(self).line()),
            match r {
                Some(n) => exists|k: int| 0 <= k < old(self).line().len() && old(self).line()[k] == ' '
                    && n == old(self).line().len() - final(self).line().len(),
                None => !exists|k: int|
                    0 <= k < old(self).line().len() && old(self).line()[k] == ' ',
            },
    {
        let len = self.buffer.len();
        let mut i: usize = len;
        while i > 0
            invariant
                self.buffer@ == old(self).buffer@,
                i <= len == self.buffer@.len(),
                forall|j: int| i <= j < len ==> self.buffer@[j] != ' ',
            decreases i,
        {
            if self.buffer[i - 1] == ' ' {
                let k = i - 1;
                let ghost s = self.buffer@;
                self.buffer.truncate(k);
                proof {
                    assert(self.buffer@ =~= s.subrange(0, k as int));
                    assert(s[k as int] == ' ');
                }
                return Some(len - k);
            }
            i = i - 1;
        }
        self.buffer.clear();
        None
    }

    /// Applies one key press to the line and says what the display has to do.
    pub fn handle(&mut self, key: Key) -> (r: Action)
        ensures
            match key {
                Key::Char(c) => final(self).line() == old(self).line().push(c) && r == Action::Echo(
                    c,
                ),
                Key::Backspace => final(self).line() == (if old(self).line().len() == 0 {
                    old(self).line()
                } else {
                    old(self).line().drop_last()
                }) && r == Action::Erase(1),
                Key::WordBackspace => without_last_word(old(self).line(), final(self).line()) && (
                if exists|k: int| 0 <= k < old(self).line().len() && old(self).line()[k] == ' ' {
                    r == Action::Erase((old(self).line().len() - final(self).line().len()) as usize)
                } else {
                    r == Action::Redraw
                }),
                Key::Tab => final(self).line() == old(self).line() && r == Action::Complete,
                Key::Enter => final(self).line() == Seq::<char>::empty() && (match r {
                    Action::Submit(s) => s@ == old(self).line(),
                    _ => false,
                }),
                Key::Interrupt => final(self).line() == old(self).line() && r == Action::Exit,
                Key::Other => final(self).line() == old(self).line() && r == Action::Nothing,
            },
    {
        match key {
            Key::Char(c) => {
                self.buffer.push(c);
                Action::Echo(c)
            },
            Key::Backspace => {
                let _ = self.buffer.pop();
                Action::Erase(1)
            },
            Key::WordBackspace => match self.delete_last_word() {
                Some(n) => Action::Erase(n),
                None => Action::Redraw,
            },
            Key::Tab => Action::Complete,
            Key::Enter => {
                let line = string_of(&self.buffer);
                self.buffer.clear();
                Action::Submit(line)
            },
            Key::Interrupt => Action::Exit,
            Key::Other => Action::Nothing,
        }
    }
}

/// The code of `c` with ASCII capitals folded to small letters.
pub open spec fn folded(c: char) -> u32 {
    if 65 <= c as u32 <= 90 {
        (c as u32 + 32) as u32
    } else {
        c as u32
    }
}

/// `s` is one of the words that end the session, `q`, `quit` or `exit`, in any case. Folding
/// ASCII capitals is enough: no other character lowercases to exactly one of these letters.
pub open spec fn is_exit_word(s: Seq<char>) -> bool {
    let f = s.map_values(|c: char| folded(c));
    ||| f == seq!['q' as u32]
    ||| f == seq!['q' as u32, 'u' as u32, 'i' as u32, 't' as u32]
    ||| f == seq!['e' as u32, 'x' as u32, 'i' as u32, 't' as u32]
}

fn fold(c: char) -> (r: u32)
    ensures
        r == folded(c),
{
    let n = c as u32;
    if 65 <= n && n <= 90 {
        n + 32
    } else {
        n
    }
}

/// `line` reads as `word`, a word of small ASCII letters, in any case.
fn reads_as(line: &str, word: &str) -> (r: bool)
    requires
        forall|i: int| 0 <= i < word@.len() ==> folded(#[trigger] word@[i]) == word@[i] as u32,
    ensures
        r == (line@.map_values(|c: char| folded(c)) == word@.map_values(|c: char| c as u32)),
{
    let n = line.unicode_len();
    let m = word.unicode_len();
    if n != m {
        proof {
            assert(line@.map_values(|c: char| folded(c)).len() != word@.map_values(
                |c: char| c as u32,
            ).len());
        }
        return false;
    }
    let mut i: usize = 0;
    while i < n
        invariant
            n == line@.len() == word@.len(),
            i <= n,
            forall|j: int| 0 <= j < i ==> folded(line@[j]) == word@[j] as u32,
        decreases n - i,
    {
        if fold(line.get_char(i)) != word.get_char(i) as u32 {
            proof {
                assert(line@.map_values(|c: char| folded(c))[i as int] != word@.map_values(
                    |c: char| c as u32,
                )[i as int]);
            }
            return false;
        }
        i = i + 1;
    }
    proof {
        assert(line@.map_values(|c: char| folded(c)) =~= word@.map_values(|c: char| c as u32));
    }
    true
}

/// Tells whether `line` is one of the words that end the session: `q`, `quit` or `exit`, in
/// any case.
pub fn is_exit_command(line: &str) -> (r: bool)
    ensures
        r == is_exit_word(line@),
{
    proof {
        reveal_strlit("q");
        reveal_strlit("quit");
        reveal_strlit("exit");
        assert("q"@.map_values(|c: char| c as u32) =~= seq!['q' as u32]);
        assert("quit"@.map_values(|c: char| c as u32) =~= seq![
            'q' as u32,
            'u' as u32,
            'i' as u32,
            't' as u32,
        ]);
        assert("exit"@.map_values(|c: char| c as u32) =~= seq![
            'e' as u32,
            'x' as u32,
            'i' as u32,
            't' as u32,
        ]);
    }
    reads_as(line, "q") || reads_as(line, "quit") || reads_as(line, "exit")
}

/// `c` is white space in the sense of Unicode's White_Space property, as `char::is_whitespace`
/// has it.
pub open spec fn is_white(c: char) -> bool {
    let n = c as u32;
    ||| 9 <= n <= 13
    ||| n == 32
    ||| n == 0x85
    ||| n == 0xA0
    ||| n == 0x1680
    ||| 0x2000 <= n <= 0x200A
    ||| n == 0x2028
    ||| n == 0x2029
    ||| n == 0x202F
    ||| n == 0x205F
    ||| n == 0x3000
}

/// The first index at or after `i` that holds no white space (or the length of `s`).
pub open spec fn skip_white(s: Seq<char>, i: int) -> int
    decreases s.len() - i,
{
    if 0 <= i < s.len() && is_white(s[i]) {
        skip_white(s, i + 1)
    } else {
        i
    }
}

/// The end of `s` before `j` once white space back to `lo` is dropped.
pub open spec fn back_white(s: Seq<char>, lo: int, j: int) -> int
    decreases j - lo,
{
    if lo < j && is_white(s[j - 1]) {
        back_white(s, lo, j - 1)
    } else {
        j
    }
}

/// `s` without its leading and trailing white space.
pub open spec fn trimmed(s: Seq<char>) -> Seq<char> {
    let lo = skip_white(s, 0);
    s.subrange(lo, back_white(s, lo, s.len() as int))
}

fn white(c: char) -> (r: bool)
    ensures
        r == is_white(c),
{
    let n = c as u32;
    (9 <= n && n <= 13) || n == 32 || n == 0x85 || n == 0xA0 || n == 0x1680 || (0x2000 <= n && n
        <= 0x200A) || n == 0x2028 || n == 0x2029 || n == 0x202F || n == 0x205F || n == 0x3000
}

/// `line` without its leading and trailing white space.
pub fn trim(line: &str) -> (r: &str)
    ensures
        r@ == trimmed(line@),
{
    let n = line.unicode_len();
    let mut lo: usize = 0;
    while lo < n && white(line.get_char(lo))
        invariant
            n == line@.len(),
            lo <= n,
            skip_white(line@, 0) == skip_white(line@, lo as int),
        decreases n - lo,
    {
        lo = lo + 1;
    }
    let mut hi: usize = n;
    while hi > lo && white(line.get_char(hi - 1))
        invariant
            n == line@.len(),
            lo <= hi <= n,
            skip_white(line@, 0) == lo,
            back_white(line@, lo as int, n as int) == back_white(line@, lo as int, hi as int),
        decreases hi - lo,
    {
        hi = hi - 1;
    }
    line.substring_char(lo, hi)
}

/// Takes a committed line, without its leading and trailing white space: a word that ends the
/// session leaves the history as it is and returns `false`; any other line is stored in the
/// history and `true` is returned.
pub fn commit_line(history: &mut Trie, line: &str) -> (go_on: bool)
    requires
        old(history).wf(),
    ensures
        go_on == !is_exit_word(trimmed(line@)),
        go_on ==> old(history).inserted(trimmed(line@), *final(history)),
        !go_on ==> *final(history) == *old(history),
{
    let text = trim(line);
    if is_exit_command(text) {
        false
    } else {
        history.insert(text);
        true
    }
}

} // verus!
