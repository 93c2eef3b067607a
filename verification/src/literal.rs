//! String literals: what is well-formed, and the text that a literal denotes.

use vstd::prelude::*;
use vstd::string::*;

verus! {

/// What the first `n` characters of `text` come to when the escapes are worked
/// off: the text so far, and whether a backslash is pending.
pub open spec fn unescape_state(text: Seq<char>, n: nat) -> (Seq<char>, bool)
    decreases n,
{
    if n == 0 || n > text.len() {
        (Seq::empty(), false)
    } else {
        let (done, pending) = unescape_state(text, (n - 1) as nat);
        let c = text[n - 1];
        if pending {
            if c == 'n' {
                (done.push('\n'), false)
            } else if c == '\\' {
                (done.push('\\'), false)
            } else if c == '"' {
                (done.push('"'), false)
            } else {
                (done, false)
            }
        } else if c == '\\' {
            (done, true)
        } else {
            (done.push(c), false)
        }
    }
}

/// `text` with its escapes worked off: `\n`, `\\` and `\"` stand for a line
/// feed, a backslash and a quote; a backslash before any other character
/// vanishes together with that character, and so does a backslash at the end.
pub open spec fn unescape(text: Seq<char>) -> Seq<char> {
    unescape_state(text, text.len()).0
}

/// What stands between the quotes of the string literal `raw`.
pub open spec fn literal_body(raw: Seq<char>) -> Seq<char> {
    if raw.len() >= 2 {
        raw.subrange(1, raw.len() - 1)
    } else {
        Seq::empty()
    }
}

/// The text that the string literal `raw` denotes.
pub open spec fn literal_text(raw: Seq<char>) -> Seq<char> {
    unescape(literal_body(raw))
}

/// Working off escapes never makes a text longer.
pub proof fn lemma_unescape_shorter(text: Seq<char>, n: nat)
    requires
        n <= text.len(),
    ensures
        unescape_state(text, n).0.len() <= n,
    decreases n,
{
    if n > 0 {
        lemma_unescape_shorter(text, (n - 1) as nat);
    }
}

/// A text without a backslash stands for itself.
pub proof fn lemma_unescape_plain(text: Seq<char>, n: nat)
    requires
        n <= text.len(),
        forall|i: int| 0 <= i < n ==> text[i] != '\\',
    ensures
        unescape_state(text, n) == (text.take(n as int), false),
    decreases n,
{
    if n == 0 {
        assert(text.take(0) =~= Seq::<char>::empty());
    } else {
        lemma_unescape_plain(text, (n - 1) as nat);
        assert(text.take(n as int) =~= text.take(n - 1).push(text[n - 1]));
    }
}

/// Works off the escapes of `text`.
pub fn escape(text: &str) -> (plain: String)
    ensures
        plain@ == unescape(text@),
        plain@.len() <= text@.len(),
        (forall|i: int| 0 <= i < text@.len() ==> text@[i] != '\\') ==> plain@ == text@,
{
    let mut plain = String::new();
    let length = text.unicode_len();
    let mut pending = false;
    let mut i: usize = 0;
    while i < length
        invariant
            i <= length,
            length == text@.len(),
            unescape_state(text@, i as nat) == (plain@, pending),
        decreases length - i,
    {
        let c = text.get_char(i);
        let ghost before = plain@;
        if pending {
            if c == 'n' {
                proof {
                    reveal_strlit("\n");
                }
                plain.append("\n");
                assert(plain@ =~= before.push('\n'));
            } else if c == '\\' {
                proof {
                    reveal_strlit("\\");
                }
                plain.append("\\");
                assert(plain@ =~= before.push('\\'));
            } else if c == '"' {
                proof {
                    reveal_strlit("\"");
                }
                plain.append("\"");
                assert(plain@ =~= before.push('"'));
            }
            pending = false;
        } else if c == '\\' {
            pending = true;
        } else {
            plain.append(text.substring_char(i, i + 1));
            assert(plain@ =~= before.push(c));
        }
        i = i + 1;
    }
    proof {
        lemma_unescape_shorter(text@, text@.len());
        if forall|i: int| 0 <= i < text@.len() ==> text@[i] != '\\' {
            lemma_unescape_plain(text@, text@.len());
            assert(text@.take(text@.len() as int) =~= text@);
        }
    }
    plain
}

/// The text that the string literal `raw` denotes: what stands between its
/// quotes, with the escapes worked off.
pub fn literal(raw: &str) -> (plain: String)
    ensures
        plain@ == literal_text(raw@),
{
    let length = raw.unicode_len();
    if length >= 2 {
        escape(raw.substring_char(1, length - 1))
    } else {
        let plain = String::new();
        assert(unescape_state(Seq::<char>::empty(), 0).0 =~= Seq::<char>::empty());
        plain
    }
}

/// Whether a backslash is pending after the first `n` characters of `body`,
/// and whether a quote that no backslash escapes stands among them.
pub open spec fn quote_state(body: Seq<char>, n: nat) -> (bool, bool)
    decreases n,
{
    if n == 0 || n > body.len() {
        (false, false)
    } else {
        let (pending, quoted) = quote_state(body, (n - 1) as nat);
        let c = body[n - 1];
        if pending {
            (false, quoted)
        } else if c == '\\' {
            (true, quoted)
        } else if c == '"' {
            (false, true)
        } else {
            (false, quoted)
        }
    }
}

/// Whether `raw` is a string literal as the language has it: it begins with a
/// quote and ends with the quote that closes it, no quote stands between them
/// but behind a backslash, and it holds no line feed.
pub open spec fn well_formed_literal(raw: Seq<char>) -> bool {
    &&& raw.len() >= 2
    &&& raw[0] == '"'
    &&& raw.last() == '"'
    &&& quote_state(literal_body(raw), literal_body(raw).len()) == (false, false)
    &&& forall|i: int| 0 <= i < raw.len() ==> raw[i] != '\n'
}

/// Whether `raw` is a well-formed string literal.
pub fn is_well_formed(raw: &str) -> (ok: bool)
    ensures
        ok == well_formed_literal(raw@),
{
    let length = raw.unicode_len();
    if length < 2 {
        return false;
    }
    if raw.get_char(0) != '"' || raw.get_char(length - 1) != '"' {
        return false;
    }
    let ghost body = literal_body(raw@);
    let mut pending = false;
    let mut quoted = false;
    let mut i: usize = 1;
    while i < length - 1
        invariant
            1 <= i <= length - 1,
            length == raw@.len(),
            length >= 2,
            body == literal_body(raw@),
            raw@[0] == '"',
            raw@.last() == '"',
            quote_state(body, (i - 1) as nat) == (pending, quoted),
            forall|k: int| 0 <= k < i ==> raw@[k] != '\n',
        decreases length - i,
    {
        let c = raw.get_char(i);
        assert(body[i - 1] == c);
        if c == '\n' {
            return false;
        }
        if pending {
            pending = false;
        } else if c == '\\' {
            pending = true;
        } else if c == '"' {
            quoted = true;
        }
        i = i + 1;
    }
    !pending && !quoted
}

} // verus!
