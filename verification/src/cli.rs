use crate::document::{Document, DocumentId};
use crate::storage::log::{lookup, lookup_result};
use crate::storage::record::{DecodeError, Operation};
use vstd::prelude::*;
use vstd::string::*;

verus! {

/// A command, given on the command line or typed into the shell.
pub enum Command {
    /// Create a new log.
    New,
    /// Store `content` (its words joined by single spaces) under `id`.
    Put { id: u64, content: Vec<String> },
    /// Print the document stored under `id`.
    Get { id: u64 },
    /// Remove the document stored under `id`.
    Delete { id: u64 },
}

/// What the program does with the log for a command.
pub enum Action {
    /// Create the log file.
    CreateLog,
    /// Append this operation to the log.
    Append(Operation),
    /// Read the whole standard input, then store it under this id.
    PutFromInput(DocumentId),
    /// Print the document stored under this id.
    Lookup(DocumentId),
    /// Read commands from standard input, one per line.
    Shell,
}

/// Why a command failed.
#[derive(Debug, Clone, Copy, PartialEq, Eq)]
pub enum CommandError {
    /// `new` was typed into the shell, which already has a log open.
    LogAlreadyOpen,
    /// `put` was typed into the shell without any content.
    MissingContent,
    /// No document is stored under this id.
    NotFound(u64),
    /// The log could not be read.
    Corrupt(DecodeError),
}

/// How the shell treats a line, by its first word.
#[derive(Debug, Clone, Copy, PartialEq, Eq, Structural)]
pub enum LineKind {
    /// No words: nothing to do.
    Blank,
    /// `exit` or `quit`: the session ends.
    Quit,
    /// Anything else is parsed as a command.
    Command,
}

/// The texts of a sequence of strings.
pub open spec fn texts(ws: Seq<String>) -> Seq<Seq<char>> {
    ws.map_values(|w: String| w@)
}

/// Words joined by single spaces.
pub open spec fn joined(ws: Seq<Seq<char>>) -> Seq<char>
    decreases ws.len(),
{
    if ws.len() == 0 {
        Seq::empty()
    } else if ws.len() == 1 {
        ws[0]
    } else {
        joined(ws.drop_last()) + seq![' '] + ws.last()
    }
}

/// The words joined by single spaces, as the content of a document.
pub fn join_words(words: &Vec<String>) -> (s: String)
    ensures
        s@ == joined(texts(words@)),
{
    let ghost ws = texts(words@);
    let sep: &str = " ";
    proof {
        reveal_strlit(" ");
    }
    let mut s = String::new();
    let mut i: usize = 0;
    while i < words.len()
        invariant
            ws == texts(words@),
            sep@ == seq![' '],
            0 <= i <= words@.len(),
            s@ == joined(ws.take(i as int)),
        decreases words@.len() - i,
    {
        proof {
            assert(ws.take(i + 1).drop_last() =~= ws.take(i as int));
            assert(ws.take(i + 1).last() == words@[i as int]@);
        }
        if i > 0 {
            s.append(sep);
        } else {
            assert(ws.take(0) =~= Seq::<Seq<char>>::empty());
        }
        s.append(words[i].as_str());
        i = i + 1;
    }
    assert(ws.take(i as int) =~= ws);
    s
}

/// The operation that stores `content` under `id`.
pub fn put(id: u64, content: String) -> (op: Operation)
    ensures
        op matches Operation::Insert(d) && d.spec_id() == DocumentId(id) && d.spec_content() == content@,
{
    Operation::Insert(Document::new(DocumentId(id), content))
}

/// The operation that removes the document under `id`.
pub fn delete(id: u64) -> (op: Operation)
    ensures
        op matches Operation::Delete(i) && i == DocumentId(id),
{
    Operation::Delete(DocumentId(id))
}

/// The error for a lookup that found nothing under `id`.
pub fn not_found(id: u64) -> (e: CommandError)
    ensures
        e == CommandError::NotFound(id),
{
    CommandError::NotFound(id)
}

/// The text of the document stored under `id` in a log body.
pub fn get(body: &[u8], id: u64) -> (r: Result<String, CommandError>)
    ensures
        match lookup_result(body@, id) {
            Ok(Some(text)) => r matches Ok(s) && s@ == text,
            Ok(None) => r == Err::<String, CommandError>(CommandError::NotFound(id)),
            Err(e) => r == Err::<String, CommandError>(CommandError::Corrupt(e)),
        },
{
    match lookup(body, DocumentId(id)) {
        Ok(Some(doc)) => Ok(doc.content().clone()),
        Ok(None) => Err(not_found(id)),
        Err(e) => Err(CommandError::Corrupt(e)),
    }
}

/// Whether `a` appends the insert of a document with this id and text.
pub open spec fn stores(a: Action, id: u64, text: Seq<char>) -> bool {
    a matches Action::Append(Operation::Insert(d)) && d.spec_id() == DocumentId(id) && d.spec_content() == text
}

/// What the program does for the command given on its command line: no command opens
/// the shell, and `put` without words reads its content from standard input.
pub fn command_action(command: Option<Command>) -> (a: Action)
    ensures
        match command {
            None => a is Shell,
            Some(Command::New) => a is CreateLog,
            Some(Command::Put { id, content }) => if content@.len() == 0 {
                a == Action::PutFromInput(DocumentId(id))
            } else {
                stores(a, id, joined(texts(content@)))
            },
            Some(Command::Get { id }) => a == Action::Lookup(DocumentId(id)),
            Some(Command::Delete { id }) => a matches Action::Append(Operation::Delete(i)) && i == DocumentId(id),
        },
{
    match command {
        None => Action::Shell,
        Some(Command::New) => Action::CreateLog,
        Some(Command::Put { id, content }) => {
            if content.len() == 0 {
                Action::PutFromInput(DocumentId(id))
            } else {
                Action::Append(put(id, join_words(&content)))
            }
        },
        Some(Command::Get { id }) => Action::Lookup(DocumentId(id)),
        Some(Command::Delete { id }) => Action::Append(delete(id)),
    }
}

/// What the shell does for a command typed into it. The shell already has its log
/// open, so `new` is refused; and its standard input carries the commands, so `put`
/// must bring its content on the line.
pub fn shell_action(command: Command) -> (r: Result<Action, CommandError>)
    ensures
        match command {
            Command::New => r == Err::<Action, CommandError>(CommandError::LogAlreadyOpen),
            Command::Put { id, content } => if content@.len() == 0 {
                r == Err::<Action, CommandError>(CommandError::MissingContent)
            } else {
                r matches Ok(a) && stores(a, id, joined(texts(content@)))
            },
            Command::Get { id } => r == Ok::<Action, CommandError>(Action::Lookup(DocumentId(id))),
            Command::Delete { id } => r matches Ok(Action::Append(Operation::Delete(i))) && i == DocumentId(id),
        },
{
    match command {
        Command::New => Err(CommandError::LogAlreadyOpen),
        Command::Put { id, content } => {
            if content.len() == 0 {
                Err(CommandError::MissingContent)
            } else {
                Ok(Action::Append(put(id, join_words(&content))))
            }
        },
        Command::Get { id } => Ok(Action::Lookup(DocumentId(id))),
        Command::Delete { id } => Ok(Action::Append(delete(id))),
    }
}

/// How the shell treats a line split into words: a line without words is skipped,
/// `exit` or `quit` as the first word ends the session, and anything else is a command.
pub fn classify_line(words: &Vec<String>) -> (k: LineKind)
    ensures
        words@.len() == 0 ==> k == LineKind::Blank,
        words@.len() > 0 ==> (k == LineKind::Quit <==> (words@[0]@ == "exit"@ || words@[0]@ == "quit"@)),
        words@.len() > 0 ==> (k == LineKind::Command <==> !(words@[0]@ == "exit"@ || words@[0]@ == "quit"@)),
{
    if words.len() == 0 {
        return LineKind::Blank;
    }
    let exit = String::from_str("exit");
    let quit = String::from_str("quit");
    if words[0] == exit || words[0] == quit {
        LineKind::Quit
    } else {
        LineKind::Command
    }
}

/// What the shell does once it has dealt with a line.
#[derive(Debug, Clone, Copy, PartialEq, Eq, Structural)]
pub enum ShellStep {
    /// Read the next line.
    ReadNext,
    /// End the session.
    End,
}

/// The shell's next step. `line` is the kind of the line just read, or nothing at the
/// end of its input; `_failed` says whether the command on the line failed (it has been
/// reported by then), which does not change the step. The session ends at the end of input or on `exit`/`quit`, and
/// goes on otherwise: a failing command does not end it.
pub fn shell_step(line: Option<LineKind>, _failed: bool) -> (step: ShellStep)
    ensures
        step == ShellStep::End <==> (line is None || line == Some(LineKind::Quit)),
{
    match line {
        None => ShellStep::End,
        Some(LineKind::Quit) => ShellStep::End,
        Some(LineKind::Blank) => ShellStep::ReadNext,
        Some(LineKind::Command) => ShellStep::ReadNext,
    }
}

/// Joining no words gives the empty text, and one word gives that word.
pub proof fn lemma_joined_short(w: Seq<char>)
    ensures
        joined(Seq::empty()).len() == 0,
        joined(seq![w]) == w,
{
}

/// A word added after at least one word is joined with exactly one space before it,
/// and every earlier word stays as it was joined.
pub proof fn lemma_joined_push(ws: Seq<Seq<char>>, w: Seq<char>)
    requires
        ws.len() > 0,
    ensures
        joined(ws.push(w)) == joined(ws) + seq![' '] + w,
{
    assert(ws.push(w).drop_last() =~= ws);
}

/// The sum of the lengths of some words.
pub open spec fn total_len(ws: Seq<Seq<char>>) -> nat
    decreases ws.len(),
{
    if ws.len() == 0 {
        0
    } else {
        total_len(ws.drop_last()) + ws.last().len()
    }
}

/// Joined words keep every character of every word and add one space between each two
/// neighbours: the text is as long as the words together, plus one less than their number.
pub proof fn lemma_joined_len(ws: Seq<Seq<char>>)
    requires
        ws.len() > 0,
    ensures
        joined(ws).len() == total_len(ws) + ws.len() - 1,
    decreases ws.len(),
{
    if ws.len() > 1 {
        lemma_joined_len(ws.drop_last());
        lemma_joined_push(ws.drop_last(), ws.last());
        assert(ws.drop_last().push(ws.last()) =~= ws);
    } else {
        assert(ws.drop_last().len() == 0);
        assert(total_len(ws.drop_last()) == 0);
        assert(ws.last() == ws[0]);
        assert(joined(ws) == ws[0]);
    }
}

} // verus!
