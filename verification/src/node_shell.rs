//! The command line of the interactive node shell: a line is cut into
//! whitespace-separated words; the first names a command, the rest are its
//! arguments.

use vstd::prelude::*;

verus! {

/// Whether `c` has the Unicode `White_Space` property.
pub open spec fn is_white(c: char) -> bool {
    let u = c as u32;
    ||| 0x09 <= u <= 0x0d
    ||| u == 0x20
    ||| u == 0x85
    ||| u == 0xa0
    ||| u == 0x1680
    ||| 0x2000 <= u <= 0x200a
    ||| u == 0x2028
    ||| u == 0x2029
    ||| u == 0x202f
    ||| u == 0x205f
    ||| u == 0x3000
}

/// The number of characters before the first whitespace of `s`.
pub open spec fn word_len(s: Seq<char>) -> nat
    decreases s.len(),
{
    if s.len() == 0 || is_white(s[0]) {
        0
    } else {
        1 + word_len(s.drop_first())
    }
}

/// A word is no longer than the text it starts, and not empty where the
/// text starts with a non-whitespace character.
pub proof fn lemma_word_len(s: Seq<char>)
    ensures
        word_len(s) <= s.len(),
        s.len() > 0 && !is_white(s[0]) ==> word_len(s) >= 1,
    decreases s.len(),
{
    if s.len() > 0 && !is_white(s[0]) {
        lemma_word_len(s.drop_first());
    }
}

/// The whitespace-separated words of `s`, in order.
pub open spec fn words(s: Seq<char>) -> Seq<Seq<char>>
    decreases s.len(),
{
    if s.len() == 0 {
        Seq::empty()
    } else if is_white(s[0]) {
        words(s.drop_first())
    } else {
        proof {
            lemma_word_len(s);
        }
        seq![s.take(word_len(s) as int)] + words(s.skip(word_len(s) as int))
    }
}

#[verifier::external_body]
/// Appends `c` to `s` (`String::push`, which the standard library documents
/// as appending the character to the end of the string).
fn push_char(s: &mut String, c: char)
    ensures
        final(s)@ == old(s)@.push(c),
{
    s.push(c);
}

fn char_is_white(c: char) -> (res: bool)
    ensures
        res == is_white(c),
{
    let u = c as u32;
    (0x09 <= u && u <= 0x0d) || u == 0x20 || u == 0x85 || u == 0xa0 || u == 0x1680 || (0x2000 <= u
        && u <= 0x200a) || u == 0x2028 || u == 0x2029 || u == 0x202f || u == 0x205f || u == 0x3000
}

proof fn lemma_skip_white(s: Seq<char>, i: int)
    requires
        0 <= i < s.len(),
        is_white(s[i]),
    ensures
        words(s.skip(i)) == words(s.skip(i + 1)),
{
    assert(s.skip(i).drop_first() =~= s.skip(i + 1));
}

proof fn lemma_word_step(s: Seq<char>, j: int)
    requires
        0 <= j < s.len(),
        !is_white(s[j]),
    ensures
        word_len(s.skip(j)) == 1 + word_len(s.skip(j + 1)),
{
    assert(s.skip(j).drop_first() =~= s.skip(j + 1));
}

proof fn lemma_word_at(s: Seq<char>, i: int, j: int)
    requires
        0 <= i < j <= s.len(),
        !is_white(s[i]),
        word_len(s.skip(i)) == j - i,
    ensures
        words(s.skip(i)) == seq![s.subrange(i, j)] + words(s.skip(j)),
{
    assert(s.skip(i).take(j - i) =~= s.subrange(i, j));
    assert(s.skip(i).skip(j - i) =~= s.skip(j));
}

/// The whitespace-separated words of `line`, in order.
pub fn split_words(line: &str) -> (res: Vec<String>)
    ensures
        res@.map_values(|w: String| w@) == words(line@),
{
    broadcast use vstd::string::group_string_axioms;

    let mut chars: Vec<char> = Vec::new();
    for c in it: line.chars()
        invariant
            chars@ == it.seq().take(it.index() as int),
            it.seq() == line@,
    {
        chars.push(c);
        assert(chars@ =~= it.seq().take(it.index() + 1));
    }
    assert(chars@ =~= line@);
    let ghost s = chars@;
    let mut out: Vec<String> = Vec::new();
    let mut i: usize = 0;
    assert(s.skip(0) =~= s);
    while i < chars.len()
        invariant
            s == chars@,
            i <= s.len(),
            words(s) == out@.map_values(|w: String| w@) + words(s.skip(i as int)),
        decreases s.len() - i,
    {
        if char_is_white(chars[i]) {
            proof {
                lemma_skip_white(s, i as int);
            }
            i = i + 1;
        } else {
            let mut word = String::new();
            let mut j: usize = i;
            proof {
                lemma_word_len(s.skip(i as int));
            }
            while j < chars.len() && !char_is_white(chars[j])
                invariant
                    s == chars@,
                    i <= j <= s.len(),
                    word@ == s.subrange(i as int, j as int),
                    word_len(s.skip(i as int)) == (j - i) + word_len(s.skip(j as int)),
                decreases s.len() - j,
            {
                proof {
                    lemma_word_step(s, j as int);
                }
                push_char(&mut word, chars[j]);
                j = j + 1;
                assert(word@ =~= s.subrange(i as int, j as int));
            }
            assert(word_len(s.skip(j as int)) == 0) by {
                if j < s.len() {
                    assert(s.skip(j as int)[0] == s[j as int]);
                }
            }
            assert(s.skip(i as int)[0] == s[i as int]);
            proof {
                lemma_word_at(s, i as int, j as int);
            }
            let ghost before = out@.map_values(|w: String| w@);
            out.push(word);
            assert(out@.map_values(|w: String| w@) =~= before.push(s.subrange(i as int, j as int)));
            i = j;
        }
    }
    assert(s.skip(i as int) =~= Seq::<char>::empty());
    assert(words(s.skip(i as int)) =~= Seq::<Seq<char>>::empty());
    assert(out@.map_values(|w: String| w@) =~= words(s));
    out
}

/// The word `quit`.
pub open spec fn quit_word() -> Seq<char> {
    seq!['q', 'u', 'i', 't']
}

/// What a line typed into the shell asks for.
pub enum ShellLine {
    /// The line is the word `quit` alone, with any whitespace around it.
    Quit,
    /// The line holds no word.
    Blank,
    /// A command name and its arguments.
    Call { name: String, args: Vec<String> },
}

/// Reads a line typed into the shell: `quit` ends the shell, a blank line
/// asks for nothing, and any other line names a command (its first word)
/// with the remaining words as arguments.
pub fn read_shell_line(line: &str) -> (res: ShellLine)
    ensures
        ({
            let ws = words(line@);
            match res {
                ShellLine::Quit => ws == seq![quit_word()],
                ShellLine::Blank => ws.len() == 0,
                ShellLine::Call { name, args } => {
                    &&& ws.len() > 0
                    &&& ws != seq![quit_word()]
                    &&& name@ == ws[0]
                    &&& args@.map_values(|a: String| a@) == ws.drop_first()
                },
            }
        }),
{
    let mut ws = split_words(line);
    let ghost w = words(line@);
    if ws.len() == 0 {
        return ShellLine::Blank;
    }
    assert(ws@[0]@ == w[0]);
    let quit = String::from_str("quit");
    proof {
        reveal_strlit("quit");
        assert("quit"@ =~= quit_word());
    }
    if ws.len() == 1 && ws[0] == quit {
        assert(ws@[0]@ == quit_word());
        assert(w =~= seq![quit_word()]);
        return ShellLine::Quit;
    }
    assert(w != seq![quit_word()]) by {
        if w == seq![quit_word()] {
            assert(ws@.len() == 1);
            assert(ws@[0]@ == quit@);
        }
    }
    let name = ws.remove(0);
    assert(ws@.map_values(|a: String| a@) =~= w.drop_first());
    ShellLine::Call { name, args: ws }
}

} // verus!
