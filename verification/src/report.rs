//! Error reports: the distinct layers of an error chain and the indented
//! text that explains them on the terminal.

use vstd::prelude::*;
use vstd::string::StrSliceExecFns;

use crate::text::{push_char, push_str};

verus! {

/// `text` ends with `suffix`.
pub open spec fn ends_with(text: Seq<char>, suffix: Seq<char>) -> bool {
    suffix.len() <= text.len() && text.subrange(text.len() - suffix.len(), text.len() as int)
        == suffix
}

/// The causes among the first `n` messages of an error chain (the error's
/// own message first, then each source in turn) that are not already the
/// tail of the message before them.
pub open spec fn distinct_layers(messages: Seq<Seq<char>>, n: int) -> Seq<Seq<char>>
    decreases n,
{
    if n <= 1 {
        seq![]
    } else {
        distinct_layers(messages, n - 1) + if ends_with(messages[n - 2], messages[n - 1]) {
            Seq::<Seq<char>>::empty()
        } else {
            seq![messages[n - 1]]
        }
    }
}

/// The texts of a list of strings.
pub open spec fn message_texts(messages: Seq<String>) -> Seq<Seq<char>> {
    messages.map_values(|m: String| m@)
}

/// Whether `text` ends with `suffix`, compared character by character.
pub fn text_ends_with(text: &str, suffix: &str) -> (r: bool)
    ensures
        r == ends_with(text@, suffix@),
{
    let n = text.unicode_len();
    let m = suffix.unicode_len();
    if m > n {
        return false;
    }
    let offset = n - m;
    let mut i: usize = 0;
    while i < m
        invariant
            n == text@.len(),
            m == suffix@.len(),
            m <= n,
            offset == n - m,
            i <= m,
            forall|k: int| 0 <= k < i ==> text@[offset + k] == suffix@[k],
        decreases m - i,
    {
        if text.get_char(offset + i) != suffix.get_char(i) {
            assert(text@.subrange(offset as int, n as int)[i as int] != suffix@[i as int]);
            return false;
        }
        i = i + 1;
    }
    assert(text@.subrange(offset as int, n as int) =~= suffix@);
    true
}

/// The messages of an error's sources that add something to the message
/// that wraps them. `chain` holds the error's own message first, then the
/// message of each source in turn; a source whose message the message before
/// it already ends with is left out.
pub fn distinct_causes(chain: &Vec<String>) -> (r: Vec<String>)
    ensures
        message_texts(r@) == distinct_layers(message_texts(chain@), chain@.len() as int),
{
    let ghost texts = message_texts(chain@);
    let mut causes: Vec<String> = Vec::new();
    let mut i: usize = 1;
    if chain.len() == 0 {
        assert(message_texts(causes@) =~= distinct_layers(texts, 0));
        return causes;
    }
    assert(message_texts(causes@) =~= distinct_layers(texts, 1));
    while i < chain.len()
        invariant
            1 <= i <= chain@.len(),
            texts == message_texts(chain@),
            message_texts(causes@) == distinct_layers(texts, i as int),
        decreases chain@.len() - i,
    {
        let ghost before = causes@;
        assert(texts[i - 1] == chain@[i - 1]@);
        assert(texts[i as int] == chain@[i as int]@);
        if !text_ends_with(chain[i - 1].as_str(), chain[i].as_str()) {
            causes.push(chain[i].clone());
            assert(causes@ == before.push(causes@[before.len() as int]));
            assert(message_texts(causes@) =~= distinct_layers(texts, i + 1));
        } else {
            assert(message_texts(causes@) =~= distinct_layers(texts, i + 1));
        }
        i = i + 1;
    }
    causes
}

/// The finished lines of `s` read so far, and the line still open, as
/// `str::lines` splits them: at each `\n`, dropping a `\r` right before it.
pub open spec fn lines_state(s: Seq<char>) -> (Seq<Seq<char>>, Seq<char>)
    decreases s.len(),
{
    if s.len() == 0 {
        (seq![], seq![])
    } else {
        let (done, open) = lines_state(s.drop_last());
        if s.last() == '\n' {
            (done.push(without_carriage_return(open)), seq![])
        } else {
            (done, open.push(s.last()))
        }
    }
}

/// A line without the `\r` of a `\r\n` ending.
pub open spec fn without_carriage_return(line: Seq<char>) -> Seq<char> {
    if line.len() > 0 && line.last() == '\r' {
        line.drop_last()
    } else {
        line
    }
}

/// The lines of `s` (`str::lines`): a last line without a line ending counts
/// when it is not empty.
pub open spec fn text_lines(s: Seq<char>) -> Seq<Seq<char>> {
    let (done, open) = lines_state(s);
    if open.len() > 0 {
        done.push(open)
    } else {
        done
    }
}

/// Indentation of the continuation lines of a cause, under its first line.
pub open spec fn continuation_indent() -> Seq<char> {
    "             "@
}

/// The first `n` lines of a cause: the first after `  caused by: `, the rest
/// aligned under it.
pub open spec fn cause_lines(lines: Seq<Seq<char>>, n: int) -> Seq<char>
    decreases n,
{
    if n <= 0 {
        seq![]
    } else {
        cause_lines(lines, n - 1) + if n == 1 {
            "  caused by: "@
        } else {
            continuation_indent()
        } + lines[n - 1] + "\n"@
    }
}

/// The report lines of one cause; nothing for an empty message.
pub open spec fn cause_text(message: Seq<char>) -> Seq<char> {
    cause_lines(text_lines(message), text_lines(message).len() as int)
}

/// The report lines of the first `n` causes.
pub open spec fn causes_text(causes: Seq<Seq<char>>, n: int) -> Seq<char>
    decreases n,
{
    if n <= 0 {
        seq![]
    } else {
        causes_text(causes, n - 1) + cause_text(causes[n - 1])
    }
}

/// The full report of an error chain: the error's own message after the
/// program name, then each distinct cause.
pub open spec fn report_text(chain: Seq<Seq<char>>) -> Seq<char> {
    let causes = distinct_layers(chain, chain.len() as int);
    "pidjezdy: "@ + chain[0] + "\n"@ + causes_text(causes, causes.len() as int)
}

/// Splits a text into its lines, as `str::lines` does.
pub fn split_lines(text: &str) -> (r: Vec<String>)
    ensures
        message_texts(r@) == text_lines(text@),
{
    let n = text.unicode_len();
    let mut done: Vec<String> = Vec::new();
    let mut open = String::new();
    let mut i: usize = 0;
    assert(text@.take(0) =~= Seq::<char>::empty());
    while i < n
        invariant
            n == text@.len(),
            i <= n,
            (message_texts(done@), open@) == lines_state(text@.take(i as int)),
        decreases n - i,
    {
        let c = text.get_char(i);
        assert(text@.take(i + 1).drop_last() =~= text@.take(i as int));
        assert(text@.take(i + 1).last() == c);
        if c == '\n' {
            let line = strip_carriage_return(open);
            let ghost before = done@;
            done.push(line);
            assert(done@ == before.push(line));
            assert(message_texts(done@) =~= message_texts(before).push(line@));
            open = String::new();
            assert(open@ =~= Seq::<char>::empty());
        } else {
            push_char(&mut open, c);
        }
        i = i + 1;
    }
    assert(text@.take(n as int) =~= text@);
    if open.unicode_len() > 0 {
        let ghost before = done@;
        let ghost last = open@;
        done.push(open);
        assert(message_texts(done@) =~= message_texts(before).push(last));
    }
    done
}

fn strip_carriage_return(line: String) -> (r: String)
    ensures
        r@ == without_carriage_return(line@),
{
    let n = line.as_str().unicode_len();
    if n > 0 && line.as_str().get_char(n - 1) == '\r' {
        line.as_str().substring_char(0, n - 1).to_owned()
    } else {
        line
    }
}

/// Appends the report lines of one cause.
fn push_cause(out: &mut String, message: &str)
    ensures
        final(out)@ == old(out)@ + cause_text(message@),
{
    let lines = split_lines(message);
    let ghost texts = message_texts(lines@);
    let ghost start = out@;
    let mut i: usize = 0;
    while i < lines.len()
        invariant
            i <= lines@.len(),
            texts == message_texts(lines@),
            texts == text_lines(message@),
            out@ == start + cause_lines(texts, i as int),
        decreases lines@.len() - i,
    {
        if i == 0 {
            push_str(out, "  caused by: ");
        } else {
            push_str(out, "             ");
        }
        assert(texts[i as int] == lines@[i as int]@);
        push_str(out, lines[i].as_str());
        push_str(out, "\n");
        assert(out@ =~= start + cause_lines(texts, i + 1));
        i = i + 1;
    }
}

/// The terminal report of a failed command: `pidjezdy: ` and the error's
/// own message, then one `caused by:` entry per distinct cause, with the
/// lines of a multi-line cause aligned under its first line.
pub fn error_report(chain: &Vec<String>) -> (r: String)
    requires
        chain@.len() >= 1,
    ensures
        r@ == report_text(message_texts(chain@)),
{
    let causes = distinct_causes(chain);
    let ghost cause_texts = message_texts(causes@);
    let mut out = String::new();
    push_str(&mut out, "pidjezdy: ");
    push_str(&mut out, chain[0].as_str());
    push_str(&mut out, "\n");
    let ghost head = out@;
    let mut i: usize = 0;
    while i < causes.len()
        invariant
            i <= causes@.len(),
            cause_texts == message_texts(causes@),
            out@ == head + causes_text(cause_texts, i as int),
        decreases causes@.len() - i,
    {
        assert(cause_texts[i as int] == causes@[i as int]@);
        push_cause(&mut out, causes[i].as_str());
        assert(out@ =~= head + causes_text(cause_texts, i + 1));
        i = i + 1;
    }
    assert(message_texts(chain@)[0] == chain@[0]@);
    assert(out@ =~= report_text(message_texts(chain@)));
    out
}

} // verus!
