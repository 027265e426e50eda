use vstd::prelude::*;
use crate::text::{chars_of, push_char};

verus! {

/// Where a scan of JSON-with-comments text stands.
#[derive(Clone, Copy, Debug, PartialEq, Eq)]
pub enum ScanState {
    Normal,
    InString,
    Escaped,
    LineComment,
    BlockComment,
}

/// The text `s`, scanned from the state `state`, with every comment
/// character replaced by a space: `//` comments run to the end of the line,
/// `/* */` comments to their close, and neither starts inside a string
/// literal (where `\` escapes the next character). Line breaks are kept.
pub open spec fn strip_from(state: ScanState, s: Seq<char>) -> Seq<char>
    decreases s.len(),
{
    if s.len() == 0 {
        seq![]
    } else {
        let ch = s[0];
        let rest = s.subrange(1, s.len() as int);
        let next = |c: char| s.len() > 1 && s[1] == c;
        match state {
            ScanState::Normal => if ch == '"' {
                seq![ch] + strip_from(ScanState::InString, rest)
            } else if ch == '/' && next('/') {
                seq![' ', ' '] + strip_from(ScanState::LineComment, s.subrange(2, s.len() as int))
            } else if ch == '/' && next('*') {
                seq![' ', ' '] + strip_from(ScanState::BlockComment, s.subrange(2, s.len() as int))
            } else {
                seq![ch] + strip_from(ScanState::Normal, rest)
            },
            ScanState::InString => seq![ch] + strip_from(
                if ch == '\\' {
                    ScanState::Escaped
                } else if ch == '"' {
                    ScanState::Normal
                } else {
                    ScanState::InString
                },
                rest,
            ),
            ScanState::Escaped => seq![ch] + strip_from(ScanState::InString, rest),
            ScanState::LineComment => if ch == '\n' {
                seq!['\n'] + strip_from(ScanState::Normal, rest)
            } else {
                seq![' '] + strip_from(ScanState::LineComment, rest)
            },
            ScanState::BlockComment => if ch == '*' && next('/') {
                seq![' ', ' '] + strip_from(ScanState::Normal, s.subrange(2, s.len() as int))
            } else if ch == '\n' {
                seq!['\n'] + strip_from(ScanState::BlockComment, rest)
            } else {
                seq![' '] + strip_from(ScanState::BlockComment, rest)
            },
        }
    }
}

/// The JSON-with-comments text `s` with its comments blanked out.
pub open spec fn strip_jsonc_text(s: Seq<char>) -> Seq<char> {
    strip_from(ScanState::Normal, s)
}

/// Blanks out the comments of JSON-with-comments text (see `strip_jsonc_text`),
/// so that what is left parses as JSON.
#[verifier::spinoff_prover]
#[verifier::rlimit(40)]
pub fn strip_jsonc_comments(content: &str) -> (r: String)
    ensures
        r@ == strip_jsonc_text(content@),
{
    let chars = chars_of(content);
    let n = chars.len();
    let mut output = String::new();
    let mut state = ScanState::Normal;
    let mut i: usize = 0;
    proof {
        assert(chars@.subrange(0, n as int) =~= chars@);
        assert(output@ + strip_jsonc_text(chars@) =~= strip_jsonc_text(chars@));
    }
    while i < n
        invariant
            n == chars@.len(),
            chars@ == content@,
            i <= n,
            strip_jsonc_text(content@) == output@ + strip_from(state, chars@.subrange(i as int, n as int)),
        decreases n - i,
    {
        let ghost s = chars@.subrange(i as int, n as int);
        let ghost out0 = output@;
        let ghost st0 = state;
        let ch = chars[i];
        let next_slash = i + 1 < n && chars[i + 1] == '/';
        let next_star = i + 1 < n && chars[i + 1] == '*';
        proof {
            assert(s.subrange(1, s.len() as int) =~= chars@.subrange(i + 1, n as int));
            if i + 1 < n {
                assert(s.subrange(2, s.len() as int) =~= chars@.subrange(i + 2, n as int));
            }
        }
        let mut step: usize = 1;
        match state {
            ScanState::Normal => {
                if ch == '"' {
                    push_char(&mut output, ch);
                    state = ScanState::InString;
                } else if ch == '/' && next_slash {
                    push_char(&mut output, ' ');
                    push_char(&mut output, ' ');
                    step = 2;
                    state = ScanState::LineComment;
                } else if ch == '/' && next_star {
                    push_char(&mut output, ' ');
                    push_char(&mut output, ' ');
                    step = 2;
                    state = ScanState::BlockComment;
                } else {
                    push_char(&mut output, ch);
                }
            },
            ScanState::InString => {
                push_char(&mut output, ch);
                if ch == '\\' {
                    state = ScanState::Escaped;
                } else if ch == '"' {
                    state = ScanState::Normal;
                }
            },
            ScanState::Escaped => {
                push_char(&mut output, ch);
                state = ScanState::InString;
            },
            ScanState::LineComment => {
                if ch == '\n' {
                    push_char(&mut output, '\n');
                    state = ScanState::Normal;
                } else {
                    push_char(&mut output, ' ');
                }
            },
            ScanState::BlockComment => {
                if ch == '*' && next_slash {
                    push_char(&mut output, ' ');
                    push_char(&mut output, ' ');
                    step = 2;
                    state = ScanState::Normal;
                } else if ch == '\n' {
                    push_char(&mut output, '\n');
                } else {
                    push_char(&mut output, ' ');
                }
            },
        }
        proof {
            let produced = output@.subrange(out0.len() as int, output@.len() as int);
            assert(output@ =~= out0 + produced);
            assert(strip_from(st0, s) =~= produced + strip_from(
                state,
                chars@.subrange(i + step, n as int),
            ));
        }
        i = i + step;
    }
    proof {
        assert(chars@.subrange(n as int, n as int) =~= Seq::<char>::empty());
        assert(output@ + Seq::<char>::empty() =~= output@);
    }
    output
}

} // verus!

verus! {

/// Every character of `out` is the character of `s` at the same place, or a
/// space that stands for a character other than a line break.
pub open spec fn blanks_only(s: Seq<char>, out: Seq<char>) -> bool {
    &&& out.len() == s.len()
    &&& forall|i: int| 0 <= i < s.len() ==> (#[trigger] out[i] == s[i] || (out[i] == ' ' && s[i] != '\n'))
}

proof fn lemma_strip_from_blanks(state: ScanState, s: Seq<char>)
    ensures
        blanks_only(s, strip_from(state, s)),
    decreases s.len(),
{
    if s.len() > 0 {
        let out = strip_from(state, s);
        let rest = s.subrange(1, s.len() as int);
        lemma_strip_from_blanks(ScanState::Normal, rest);
        lemma_strip_from_blanks(ScanState::InString, rest);
        lemma_strip_from_blanks(ScanState::Escaped, rest);
        lemma_strip_from_blanks(ScanState::LineComment, rest);
        lemma_strip_from_blanks(ScanState::BlockComment, rest);
        if s.len() > 1 {
            let rest2 = s.subrange(2, s.len() as int);
            lemma_strip_from_blanks(ScanState::Normal, rest2);
            lemma_strip_from_blanks(ScanState::LineComment, rest2);
            lemma_strip_from_blanks(ScanState::BlockComment, rest2);
        }
        assert forall|i: int| 0 <= i < s.len() implies (#[trigger] out[i] == s[i] || (out[i] == ' '
            && s[i] != '\n')) by {
            if i >= 2 {
                assert(s[i] == rest[i - 1]);
                assert(s[i] == s.subrange(2, s.len() as int)[i - 2]);
            } else if i == 1 {
                assert(s[i] == rest[0]);
            }
        }
    }
}

/// Law: blanking comments keeps the length of the text and every line break
/// where it was, and changes a character only into a space.
pub proof fn law_strip_keeps_layout(s: Seq<char>)
    ensures
        blanks_only(s, strip_jsonc_text(s)),
        forall|i: int|
            0 <= i < s.len() ==> (#[trigger] strip_jsonc_text(s)[i] == '\n' <==> s[i] == '\n'),
{
    lemma_strip_from_blanks(ScanState::Normal, s);
}

/// No `/` in `s` is followed by `/` or `*`: the text opens no comment.
pub open spec fn opens_no_comment(s: Seq<char>) -> bool {
    forall|i: int| 0 <= i < s.len() - 1 ==> !(#[trigger] s[i] == '/' && (s[i + 1] == '/' || s[i + 1] == '*'))
}

proof fn lemma_strip_from_no_comment(state: ScanState, s: Seq<char>)
    requires
        state == ScanState::Normal || state == ScanState::InString || state == ScanState::Escaped,
        opens_no_comment(s),
    ensures
        strip_from(state, s) == s,
    decreases s.len(),
{
    if s.len() > 0 {
        let rest = s.subrange(1, s.len() as int);
        assert forall|i: int| 0 <= i < rest.len() - 1 implies !(#[trigger] rest[i] == '/' && (rest[i + 1]
            == '/' || rest[i + 1] == '*')) by {
            assert(rest[i] == s[i + 1]);
            assert(rest[i + 1] == s[i + 2]);
        }
        lemma_strip_from_no_comment(ScanState::Normal, rest);
        lemma_strip_from_no_comment(ScanState::InString, rest);
        lemma_strip_from_no_comment(ScanState::Escaped, rest);
        if s.len() > 1 {
            assert(!(s[0] == '/' && (s[1] == '/' || s[1] == '*')));
        }
        assert(s =~= seq![s[0]] + rest);
    }
}

/// Law: text in which no `/` is followed by `/` or `*` opens no comment and
/// comes back unchanged.
pub proof fn law_strip_without_comment_is_identity(s: Seq<char>)
    requires
        opens_no_comment(s),
    ensures
        strip_jsonc_text(s) == s,
{
    lemma_strip_from_no_comment(ScanState::Normal, s);
}

/// The state in which a second pass over blanked text reads the blanked
/// output of a stretch read in `state`: blanked comments read as plain text.
pub open spec fn rescan_state(state: ScanState) -> ScanState {
    match state {
        ScanState::LineComment | ScanState::BlockComment => ScanState::Normal,
        _ => state,
    }
}

/// A blank or a line break read as plain text outside strings stays itself.
proof fn lemma_strip_plain_blank(c: char, x: Seq<char>)
    requires
        c == ' ' || c == '\n',
    ensures
        strip_from(ScanState::Normal, seq![c] + x) == seq![c] + strip_from(ScanState::Normal, x),
{
    let t = seq![c] + x;
    assert(t[0] == c);
    assert(t.subrange(1, t.len() as int) =~= x);
}

proof fn lemma_strip_twice(state: ScanState, s: Seq<char>)
    ensures
        strip_from(rescan_state(state), strip_from(state, s)) == strip_from(state, s),
    decreases s.len(),
{
    if s.len() > 0 {
        let ch = s[0];
        let rest = s.subrange(1, s.len() as int);
        let next = |c: char| s.len() > 1 && s[1] == c;
        if s.len() > 1 {
            let rest2 = s.subrange(2, s.len() as int);
            assert(rest.subrange(1, rest.len() as int) =~= rest2);
        }
        match state {
            ScanState::Normal => {
                if ch == '"' {
                    lemma_strip_twice(ScanState::InString, rest);
                    let out = strip_from(ScanState::InString, rest);
                    let t = seq![ch] + out;
                    assert(t.subrange(1, t.len() as int) =~= out);
                } else if ch == '/' && next('/') {
                    let rest2 = s.subrange(2, s.len() as int);
                    lemma_strip_twice(ScanState::LineComment, rest2);
                    let out = strip_from(ScanState::LineComment, rest2);
                    lemma_strip_plain_blank(' ', out);
                    lemma_strip_plain_blank(' ', seq![' '] + out);
                    assert(seq![' ', ' '] + out =~= seq![' '] + (seq![' '] + out));
                } else if ch == '/' && next('*') {
                    let rest2 = s.subrange(2, s.len() as int);
                    lemma_strip_twice(ScanState::BlockComment, rest2);
                    let out = strip_from(ScanState::BlockComment, rest2);
                    lemma_strip_plain_blank(' ', out);
                    lemma_strip_plain_blank(' ', seq![' '] + out);
                    assert(seq![' ', ' '] + out =~= seq![' '] + (seq![' '] + out));
                } else {
                    lemma_strip_twice(ScanState::Normal, rest);
                    let out = strip_from(ScanState::Normal, rest);
                    let t = seq![ch] + out;
                    assert(t.subrange(1, t.len() as int) =~= out);
                    if rest.len() > 0 {
                        assert(rest[0] == s[1]);
                        if rest[0] != '/' && rest[0] != '"' {
                            assert(out[0] == rest[0]);
                        } else if rest[0] == '"' {
                            assert(out[0] == '"');
                        }
                    }
                }
            },
            ScanState::InString | ScanState::Escaped => {
                let st = if state == ScanState::Escaped {
                    ScanState::InString
                } else if ch == '\\' {
                    ScanState::Escaped
                } else if ch == '"' {
                    ScanState::Normal
                } else {
                    ScanState::InString
                };
                lemma_strip_twice(st, rest);
                let out = strip_from(st, rest);
                let t = seq![ch] + out;
                assert(t.subrange(1, t.len() as int) =~= out);
            },
            ScanState::LineComment => {
                if ch == '\n' {
                    lemma_strip_twice(ScanState::Normal, rest);
                    lemma_strip_plain_blank('\n', strip_from(ScanState::Normal, rest));
                } else {
                    lemma_strip_twice(ScanState::LineComment, rest);
                    lemma_strip_plain_blank(' ', strip_from(ScanState::LineComment, rest));
                }
            },
            ScanState::BlockComment => {
                if ch == '*' && next('/') {
                    let rest2 = s.subrange(2, s.len() as int);
                    lemma_strip_twice(ScanState::Normal, rest2);
                    let out = strip_from(ScanState::Normal, rest2);
                    lemma_strip_plain_blank(' ', out);
                    lemma_strip_plain_blank(' ', seq![' '] + out);
                    assert(seq![' ', ' '] + out =~= seq![' '] + (seq![' '] + out));
                } else if ch == '\n' {
                    lemma_strip_twice(ScanState::BlockComment, rest);
                    lemma_strip_plain_blank('\n', strip_from(ScanState::BlockComment, rest));
                } else {
                    lemma_strip_twice(ScanState::BlockComment, rest);
                    lemma_strip_plain_blank(' ', strip_from(ScanState::BlockComment, rest));
                }
            },
        }
    }
}

/// Law: blanking comments leaves no comment behind: blanking the result
/// again changes nothing.
pub proof fn law_strip_is_idempotent(s: Seq<char>)
    ensures
        strip_jsonc_text(strip_jsonc_text(s)) == strip_jsonc_text(s),
{
    lemma_strip_twice(ScanState::Normal, s);
}

/// `c` is the inside of a string literal: characters other than `"` and
/// `\`, and each `\` followed by exactly one character that it escapes.
pub open spec fn string_body(c: Seq<char>) -> bool
    decreases c.len(),
{
    if c.len() == 0 {
        true
    } else if c[0] == '\\' {
        c.len() >= 2 && string_body(c.subrange(2, c.len() as int))
    } else {
        c[0] != '"' && string_body(c.subrange(1, c.len() as int))
    }
}

proof fn lemma_string_body_kept(c: Seq<char>, rest: Seq<char>)
    requires
        string_body(c),
    ensures
        strip_from(ScanState::InString, c + seq!['"'] + rest) == c + seq!['"'] + strip_from(
            ScanState::Normal,
            rest,
        ),
    decreases c.len(),
{
    let t = c + seq!['"'] + rest;
    if c.len() == 0 {
        assert(t[0] == '"');
        assert(t.subrange(1, t.len() as int) =~= rest);
        assert(strip_from(ScanState::InString, t) == seq![t[0]] + strip_from(
            ScanState::Normal,
            t.subrange(1, t.len() as int),
        ));
        assert(c + seq!['"'] + strip_from(ScanState::Normal, rest) =~= seq!['"'] + strip_from(
            ScanState::Normal,
            rest,
        ));
    } else if c[0] == '\\' {
        let c2 = c.subrange(2, c.len() as int);
        lemma_string_body_kept(c2, rest);
        let t1 = t.subrange(1, t.len() as int);
        assert(t[0] == '\\');
        assert(t1[0] == c[1]);
        assert(t1.subrange(1, t1.len() as int) =~= c2 + seq!['"'] + rest);
        assert(strip_from(ScanState::Escaped, t1) == seq![t1[0]] + strip_from(
            ScanState::InString,
            t1.subrange(1, t1.len() as int),
        ));
        assert(strip_from(ScanState::InString, t) == seq![t[0]] + strip_from(ScanState::Escaped, t1));
        assert(c + seq!['"'] + strip_from(ScanState::Normal, rest) =~= seq![c[0]] + (seq![c[1]] + (
        c2 + seq!['"'] + strip_from(ScanState::Normal, rest))));
    } else {
        let c1 = c.subrange(1, c.len() as int);
        lemma_string_body_kept(c1, rest);
        assert(t[0] == c[0]);
        assert(t.subrange(1, t.len() as int) =~= c1 + seq!['"'] + rest);
        assert(strip_from(ScanState::InString, t) == seq![t[0]] + strip_from(
            ScanState::InString,
            t.subrange(1, t.len() as int),
        ));
        assert(c + seq!['"'] + strip_from(ScanState::Normal, rest) =~= seq![c[0]] + (c1 + seq!['"']
            + strip_from(ScanState::Normal, rest)));
    }
}

/// Law: a string literal is kept whole, and the text after its closing quote
/// is read as plain text again: a `\` escapes exactly the one character after
/// it, so an escaped backslash does not hide the closing quote, and comment
/// markers inside the literal are kept.
pub proof fn law_string_literal_kept(c: Seq<char>, rest: Seq<char>)
    requires
        string_body(c),
    ensures
        strip_jsonc_text(seq!['"'] + c + seq!['"'] + rest) == seq!['"'] + c + seq!['"']
            + strip_jsonc_text(rest),
{
    let t = seq!['"'] + c + seq!['"'] + rest;
    lemma_string_body_kept(c, rest);
    assert(t[0] == '"');
    assert(t.subrange(1, t.len() as int) =~= c + seq!['"'] + rest);
    assert(seq!['"'] + c + seq!['"'] + strip_jsonc_text(rest) =~= seq!['"'] + (c + seq!['"']
        + strip_jsonc_text(rest)));
}

/// `c` with every character but a line break blanked to a space.
pub open spec fn blanked(c: Seq<char>) -> Seq<char> {
    c.map_values(|ch: char| if ch == '\n' { '\n' } else { ' ' })
}

proof fn lemma_line_comment_blanked(c: Seq<char>, rest: Seq<char>)
    requires
        forall|i: int| 0 <= i < c.len() ==> c[i] != '\n',
    ensures
        strip_from(ScanState::LineComment, c + seq!['\n'] + rest) == blanked(c) + seq!['\n']
            + strip_from(ScanState::Normal, rest),
    decreases c.len(),
{
    let t = c + seq!['\n'] + rest;
    if c.len() == 0 {
        assert(t[0] == '\n');
        assert(t.subrange(1, t.len() as int) =~= rest);
        assert(blanked(c) + seq!['\n'] + strip_from(ScanState::Normal, rest) =~= seq!['\n']
            + strip_from(ScanState::Normal, rest));
    } else {
        let c1 = c.subrange(1, c.len() as int);
        lemma_line_comment_blanked(c1, rest);
        assert(t[0] == c[0]);
        assert(t.subrange(1, t.len() as int) =~= c1 + seq!['\n'] + rest);
        assert(blanked(c) =~= seq![' '] + blanked(c1));
        assert(blanked(c) + seq!['\n'] + strip_from(ScanState::Normal, rest) =~= seq![' '] + (
        blanked(c1) + seq!['\n'] + strip_from(ScanState::Normal, rest)));
    }
}

/// Law: a line comment runs to the end of its line: `//`, then text without
/// a line break, then the line break, comes out as blanks, the line break,
/// and the rest read as plain text again.
pub proof fn law_line_comment_ends_at_line_break(c: Seq<char>, rest: Seq<char>)
    requires
        forall|i: int| 0 <= i < c.len() ==> c[i] != '\n',
    ensures
        strip_jsonc_text(seq!['/', '/'] + c + seq!['\n'] + rest) == seq![' ', ' '] + blanked(c)
            + seq!['\n'] + strip_jsonc_text(rest),
{
    let t = seq!['/', '/'] + c + seq!['\n'] + rest;
    lemma_line_comment_blanked(c, rest);
    assert(t[0] == '/' && t[1] == '/');
    assert(t.subrange(2, t.len() as int) =~= c + seq!['\n'] + rest);
    assert(seq![' ', ' '] + blanked(c) + seq!['\n'] + strip_jsonc_text(rest) =~= seq![' ', ' '] + (
    blanked(c) + seq!['\n'] + strip_jsonc_text(rest)));
}

proof fn lemma_block_comment_blanked(c: Seq<char>, rest: Seq<char>)
    requires
        forall|i: int| 0 <= i < c.len() - 1 ==> !(#[trigger] c[i] == '*' && c[i + 1] == '/'),
    ensures
        strip_from(ScanState::BlockComment, c + seq!['*', '/'] + rest) == blanked(c) + seq![' ', ' ']
            + strip_from(ScanState::Normal, rest),
    decreases c.len(),
{
    let t = c + seq!['*', '/'] + rest;
    if c.len() == 0 {
        assert(t[0] == '*' && t[1] == '/');
        assert(t.subrange(2, t.len() as int) =~= rest);
        assert(blanked(c) + seq![' ', ' '] + strip_from(ScanState::Normal, rest) =~= seq![' ', ' ']
            + strip_from(ScanState::Normal, rest));
    } else {
        let c1 = c.subrange(1, c.len() as int);
        assert forall|i: int| 0 <= i < c1.len() - 1 implies !(#[trigger] c1[i] == '*' && c1[i + 1]
            == '/') by {
            assert(c1[i] == c[i + 1]);
            assert(c1[i + 1] == c[i + 2]);
        }
        lemma_block_comment_blanked(c1, rest);
        assert(t[0] == c[0]);
        if c.len() == 1 {
            assert(t[1] == '*');
        } else {
            assert(t[1] == c[1]);
        }
        assert(t.subrange(1, t.len() as int) =~= c1 + seq!['*', '/'] + rest);
        assert(blanked(c) =~= seq![if c[0] == '\n' { '\n' } else { ' ' }] + blanked(c1));
        assert(blanked(c) + seq![' ', ' '] + strip_from(ScanState::Normal, rest) =~= seq![
            if c[0] == '\n' { '\n' } else { ' ' },
        ] + (blanked(c1) + seq![' ', ' '] + strip_from(ScanState::Normal, rest)));
    }
}

/// Law: a block comment runs to its first `*/`: `/*`, then text without
/// `*/`, then `*/`, comes out as blanks (line breaks kept), and the rest is
/// read as plain text again.
pub proof fn law_block_comment_ends_at_close(c: Seq<char>, rest: Seq<char>)
    requires
        forall|i: int| 0 <= i < c.len() - 1 ==> !(#[trigger] c[i] == '*' && c[i + 1] == '/'),
    ensures
        strip_jsonc_text(seq!['/', '*'] + c + seq!['*', '/'] + rest) == seq![' ', ' '] + blanked(c)
            + seq![' ', ' '] + strip_jsonc_text(rest),
{
    let t = seq!['/', '*'] + c + seq!['*', '/'] + rest;
    lemma_block_comment_blanked(c, rest);
    assert(t[0] == '/' && t[1] == '*');
    assert(t.subrange(2, t.len() as int) =~= c + seq!['*', '/'] + rest);
    assert(seq![' ', ' '] + blanked(c) + seq![' ', ' '] + strip_jsonc_text(rest) =~= seq![' ', ' ']
        + (blanked(c) + seq![' ', ' '] + strip_jsonc_text(rest)));
}

} // verus!
