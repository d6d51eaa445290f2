//! The commands of the interface.
use crate::cli::client_impl;
use crate::cli::client_impl::recipe_rows;
use crate::node::NodeState;
use crate::node::NodeView;
use crate::order;
use crate::protocol::TcpMessage;
use crate::protocol::TcpView;
use crate::server::handlers::handle_list_recipes;
use crate::server::handlers::listing;
use crate::text;
use crate::text::join_text;
use crate::text::split_text;
use crate::text::to_chars;
use crate::text::to_text;
use crate::text_facts;
use vstd::prelude::*;
use vstd::slice::slice_subrange;

verus! {

/// A command, as far as it could be made out.
#[derive(Debug, PartialEq, Eq)]
pub enum TuiCommand {
    /// Show available commands; the text that describes them.
    Help(String),
    /// List capabilities exposed by this node.
    ListCapabilities,
    /// List recipes available in the cluster.
    ListRecipes,
    /// No command; the text that says what is wrong.
    Invalid(String),
}

/// A line for the log.
#[derive(Debug, PartialEq, Eq)]
pub enum LogLine {
    Info(String),
    Warn(String),
}

/// What a [`LogLine`] holds.
#[verifier::ext_equal]
pub enum LogView {
    Info(Seq<char>),
    Warn(Seq<char>),
}

impl View for LogLine {
    type V = LogView;

    open spec fn view(&self) -> LogView {
        match self {
            LogLine::Info(s) => LogView::Info(s@),
            LogLine::Warn(s) => LogView::Warn(s@),
        }
    }
}

// ── Words and lines ──────────────────────────────────────────────────────────

/// The words of a text: its pieces between white space, without empty ones.
pub open spec fn words(s: Seq<char>) -> Seq<Seq<char>>
    decreases s.len(),
{
    if s.len() == 0 {
        seq![]
    } else {
        let front = words(s.drop_last());
        if text::is_space(s.last()) {
            front
        } else if s.len() > 1 && !text::is_space(s[s.len() - 2]) {
            front.drop_last().push(front.last().push(s.last()))
        } else {
            front.push(seq![s.last()])
        }
    }
}

/// The words of a command line, with the name of the interface in front, as a command-line parser
/// takes them.
pub fn command_line(input: &str) -> (r: Vec<String>)
    ensures
        text::views(r@) == seq!["tui"@] + words(input@),
{
    let chars = to_chars(input);
    let mut out: Vec<String> = Vec::new();
    out.push("tui".to_string());
    let mut current: Vec<char> = Vec::new();
    assert(chars@.take(0) =~= seq![]);
    assert(text::views(out@) =~= seq!["tui"@]);
    for i in 0..chars.len()
        invariant
            chars@ == input@,
            ({
                let done = chars@.take(i as int);
                if i > 0 && !text::is_space(chars@[i - 1]) {
                    &&& words(done).len() > 0
                    &&& current@ == words(done).last()
                    &&& current@.len() > 0
                    &&& text::views(out@) == seq!["tui"@] + words(done).drop_last()
                } else {
                    &&& current@.len() == 0
                    &&& text::views(out@) == seq!["tui"@] + words(done)
                }
            }),
    {
        let c = chars[i];
        let ghost done = chars@.take(i as int);
        let ghost next = chars@.take(i + 1);
        let ghost was = text::views(out@);
        assert(next.drop_last() =~= done);
        assert(next.last() == c);
        if i > 0 {
            assert(next[next.len() - 2] == chars@[i - 1]);
        }
        if crate::text::space(c) {
            if current.len() > 0 {
                out.push(to_text(current.as_slice()));
                assert(text::views(out@) =~= was.push(current@));
                assert(words(done) =~= words(done).drop_last().push(words(done).last()));
                assert(text::views(out@) =~= seq!["tui"@] + words(done));
                current = Vec::new();
            }
        } else {
            let ghost before = current@;
            current.push(c);
            if i > 0 && !crate::text::space(chars[i - 1]) {
                assert(words(next).drop_last() =~= words(done).drop_last());
            } else {
                assert(before =~= seq![]);
                assert(current@ =~= seq![c]);
                assert(words(next).drop_last() =~= words(done));
            }
        }
    }
    assert(chars@.take(chars@.len() as int) =~= chars@);
    if current.len() > 0 {
        let ghost was = text::views(out@);
        out.push(to_text(current.as_slice()));
        assert(text::views(out@) =~= was.push(current@));
        assert(words(chars@) =~= words(chars@).drop_last().push(words(chars@).last()));
        assert(text::views(out@) =~= seq!["tui"@] + words(chars@));
    }
    out
}

/// A line without the carriage return before its line feed.
pub open spec fn without_return(s: Seq<char>) -> Seq<char> {
    if s.len() > 0 && s.last() == '\r' {
        s.drop_last()
    } else {
        s
    }
}

/// The lines of a text. Each ends with a line feed, before which a carriage return does not count;
/// the last one may end without.
pub open spec fn lines(s: Seq<char>) -> Seq<Seq<char>> {
    let parts = text::split(s, seq!['\n']);
    let ended = Seq::new(
        (parts.len() - 1) as nat,
        |i: int| without_return(parts[i]),
    );
    if parts.last().len() == 0 {
        ended
    } else {
        ended.push(parts.last())
    }
}

/// A text is always split into at least one piece.
proof fn lemma_split_not_empty(s: Seq<char>, pat: Seq<char>)
    ensures
        text::split(s, pat).len() > 0,
{
    text::lemma_first_from(s, pat, 0);
}

/// The lines of a text.
pub fn text_lines(s: &str) -> (r: Vec<String>)
    ensures
        text::views(r@) == lines(s@),
{
    let chars = to_chars(s);
    let feed: [char; 1] = ['\n'];
    assert(feed@ =~= seq!['\n']);
    let parts = split_text(chars.as_slice(), &feed);
    let ghost all = text::split(s@, seq!['\n']);
    proof {
        lemma_split_not_empty(s@, seq!['\n']);
    }
    let mut out: Vec<String> = Vec::new();
    let last: usize = parts.len() - 1;
    for i in 0..last
        invariant
            text::views(parts@) == all,
            last == all.len() - 1,
            out@.len() == i,
            forall|j: int| 0 <= j < i ==> (#[trigger] out@[j])@ == without_return(all[j]),
    {
        let part = parts[i];
        assert(all[i as int] == part@);
        let n: usize = part.len();
        if n > 0 && part[n - 1] == '\r' {
            let cut = slice_subrange(part, 0, n - 1);
            assert(cut@ =~= part@.drop_last());
            out.push(to_text(cut));
        } else {
            out.push(to_text(part));
        }
    }
    assert(all.last() == parts@[last as int]@);
    let ghost ended = Seq::new((all.len() - 1) as nat, |i: int| without_return(all[i]));
    assert(text::views(out@) =~= ended);
    if parts[last].len() > 0 {
        out.push(to_text(parts[last]));
        assert(text::views(out@) =~= ended.push(all.last()));
    }
    out
}

/// `s` starts with `prefix`.
pub open spec fn starts_with(s: Seq<char>, prefix: Seq<char>) -> bool {
    s.len() >= prefix.len() && s.take(prefix.len() as int) == prefix
}

/// Whether a text starts with another.
fn has_prefix(s: &str, prefix: &str) -> (r: bool)
    ensures
        r == starts_with(s@, prefix@),
{
    let a = to_chars(s);
    let b = to_chars(prefix);
    if a.len() < b.len() {
        return false;
    }
    for i in 0..b.len()
        invariant
            a@.len() >= b@.len(),
            a@ == s@,
            b@ == prefix@,
            forall|j: int| 0 <= j < i ==> a@[j] == b@[j],
    {
        if a[i] != b[i] {
            assert(a@.take(b@.len() as int)[i as int] != b@[i as int]);
            return false;
        }
    }
    assert(a@.take(b@.len() as int) =~= b@);
    true
}

// ── Execution ────────────────────────────────────────────────────────────────

/// What the log says on a command.
///
/// - Help is shown line by line, without the usage line.
/// - The capabilities of the node are listed in one line.
/// - The recipes of the cluster are listed one per line, in ascending order of their names.
/// - What is wrong with an invalid command is shown line by line, as warnings.
pub open spec fn executed(command: TuiCommand, state: NodeView) -> Seq<LogView> {
    match command {
        TuiCommand::Help(help) => {
            let shown = lines(help@).filter(|l: Seq<char>| !starts_with(l, "Usage:"@));
            Seq::new(shown.len(), |i: int| LogView::Info(shown[i]))
        },
        TuiCommand::ListCapabilities => if state.identity.capabilities.len() == 0 {
            seq![LogView::Info("No capabilities"@)]
        } else {
            seq![
                LogView::Info(
                    "Capabilities: "@ + text::join(state.identity.capabilities, ", "@),
                ),
            ]
        },
        TuiCommand::ListRecipes => {
            let rows = client_impl::availability_rows(listing::recipe_list(state));
            if rows.len() == 0 {
                seq![LogView::Info("No recipes available"@)]
            } else {
                seq![LogView::Info("Available recipes:"@)] + Seq::new(
                    rows.len(),
                    |i: int| LogView::Info(rows[i]),
                )
            }
        },
        TuiCommand::Invalid(why) => {
            let shown = lines(why@);
            Seq::new(shown.len(), |i: int| LogView::Warn(shown[i]))
        },
    }
}

/// One line.
fn one_line(line: LogLine) -> (r: Vec<LogLine>)
    ensures
        text::views(r@) == seq![line@],
{
    let mut out: Vec<LogLine> = Vec::new();
    out.push(line);
    assert(text::views(out@) =~= seq![line@]);
    out
}

/// What the log says where a command was entered that is not known.
pub fn unknown_command_lines(command: &str) -> (r: Vec<LogLine>)
    ensures
        text::views(r@) == seq![
            LogView::Info("> "@ + command@),
            LogView::Warn("Unknown command: '"@ + command@ + "'"@),
        ],
{
    let mut out: Vec<LogLine> = Vec::new();
    out.push(LogLine::Info("> ".to_string().concat(command)));
    out.push(LogLine::Warn("Unknown command: '".to_string().concat(command).concat("'")));
    assert(text::views(out@) =~= seq![
        LogView::Info("> "@ + command@),
        LogView::Warn("Unknown command: '"@ + command@ + "'"@),
    ]);
    out
}

/// The lines of a help text but the usage line.
fn help_lines(help: &str) -> (r: Vec<LogLine>)
    ensures
        ({
            let shown = lines(help@).filter(|l: Seq<char>| !starts_with(l, "Usage:"@));
            text::views(r@) == Seq::new(shown.len(), |i: int| LogView::Info(shown[i]))
        }),
{
    let all = text_lines(help);
    let ghost raw = text::views(all@);
    let ghost keep = |l: Seq<char>| !starts_with(l, "Usage:"@);
    let mut out: Vec<LogLine> = Vec::new();
    assert(raw.take(0).filter(keep).len() == 0) by {
        reveal(Seq::filter);
    }
    for i in 0..all.len()
        invariant
            raw == text::views(all@),
            keep == (|l: Seq<char>| !starts_with(l, "Usage:"@)),
            out@.len() == raw.take(i as int).filter(keep).len(),
            forall|j: int|
                0 <= j < out@.len() ==> (#[trigger] out@[j])@ == LogView::Info(
                    raw.take(i as int).filter(keep)[j],
                ),
    {
        let ghost x = all@[i as int]@;
        assert(raw.take(i + 1) =~= raw.take(i as int).push(x));
        proof {
            raw.take(i as int).lemma_filter_push(x, keep);
        }
        if !has_prefix(all[i].as_str(), "Usage:") {
            out.push(LogLine::Info(all[i].clone()));
        }
    }
    assert(raw.take(raw.len() as int) =~= raw);
    let ghost shown = lines(help@).filter(|l: Seq<char>| !starts_with(l, "Usage:"@));
    assert(shown == raw.filter(keep));
    assert(text::views(out@) =~= Seq::new(shown.len(), |i: int| LogView::Info(shown[i])));
    out
}

/// What the log says on a command.
pub fn execute(command: &TuiCommand, state: &NodeState) -> (r: Vec<LogLine>)
    ensures
        text::views(r@) == executed(*command, state@),
{
    match command {
        TuiCommand::Help(help) => help_lines(help.as_str()),
        TuiCommand::ListCapabilities => {
            if state.identity.capabilities.len() == 0 {
                one_line(LogLine::Info("No capabilities".to_string()))
            } else {
                let all = join_text(&state.identity.capabilities, ", ");
                one_line(LogLine::Info("Capabilities: ".to_string().concat(all.as_str())))
            }
        },
        TuiCommand::ListRecipes => match handle_list_recipes(state) {
            TcpMessage::RecipeListAnswer { recipes } => {
                let rows = recipe_rows(&recipes);
                assert(text::views(rows@).len() == rows@.len());
                if rows.len() == 0 {
                    return one_line(LogLine::Info("No recipes available".to_string()));
                }
                let mut out: Vec<LogLine> = Vec::new();
                out.push(LogLine::Info("Available recipes:".to_string()));
                for i in 0..rows.len()
                    invariant
                        out@.len() == i + 1,
                        out@[0]@ == LogView::Info("Available recipes:"@),
                        forall|j: int|
                            0 <= j < i ==> (#[trigger] out@[j + 1])@ == LogView::Info(rows@[j]@),
                {
                    out.push(LogLine::Info(rows[i].clone()));
                }
                proof {
                    let expected = executed(*command, state@);
                    assert forall|k: int| 0 <= k < out@.len() implies text::views(out@)[k]
                        == expected[k] by {
                        if k > 0 {
                            assert(out@[k - 1 + 1]@ == LogView::Info(rows@[k - 1]@));
                        }
                    }
                    assert(text::views(out@) =~= expected);
                }
                out
            },
            _ => one_line(LogLine::Warn("Unexpected response".to_string())),
        },
        TuiCommand::Invalid(why) => {
            let all = text_lines(why.as_str());
            let mut out: Vec<LogLine> = Vec::new();
            for i in 0..all.len()
                invariant
                    out@.len() == i,
                    forall|j: int| 0 <= j < i ==> (#[trigger] out@[j])@ == LogView::Warn(all@[j]@),
            {
                out.push(LogLine::Warn(all[i].clone()));
            }
            assert(text::views(out@) =~= executed(*command, state@));
            out
        },
    }
}

// ── Laws ─────────────────────────────────────────────────────────────────────

/// A command line is cut at every white space: what stands before and behind one is read as if it
/// stood alone.
pub proof fn command_lines_are_cut_at_white_space(
    front: &str,
    c: char,
    back: &str,
    all: &str,
    front_words: Vec<String>,
    back_words: Vec<String>,
    r: Vec<String>,
)
    requires
        text::is_space(c),
        all@ == front@.push(c) + back@,
        call_ensures(command_line, (front,), front_words),
        call_ensures(command_line, (back,), back_words),
        call_ensures(command_line, (all,), r),
    ensures
        text::views(r@) == text::views(front_words@) + text::views(back_words@).skip(1),
{
    lemma_words_cut(front@, c, back@);
    assert(text::views(back_words@).skip(1) =~= words(back@));
    assert(seq!["tui"@] + (words(front@) + words(back@)) =~= seq!["tui"@] + words(front@) + words(
        back@,
    ));
}

/// What holds no white space is one word, behind the name of the interface.
pub proof fn words_are_taken_whole(s: &str, r: Vec<String>)
    requires
        forall|i: int| 0 <= i < s@.len() ==> !text::is_space(#[trigger] s@[i]),
        call_ensures(command_line, (s,), r),
    ensures
        s@.len() == 0 ==> text::views(r@) == seq!["tui"@],
        s@.len() > 0 ==> text::views(r@) == seq!["tui"@, s@],
{
    lemma_one_word(s@);
    assert(seq!["tui"@] + Seq::<Seq<char>>::empty() =~= seq!["tui"@]);
    assert(seq!["tui"@] + seq![s@] =~= seq!["tui"@, s@]);
}

proof fn lemma_one_word(s: Seq<char>)
    requires
        forall|i: int| 0 <= i < s.len() ==> !text::is_space(#[trigger] s[i]),
    ensures
        words(s) == if s.len() == 0 {
            seq![]
        } else {
            seq![s]
        },
    decreases s.len(),
{
    if s.len() > 0 {
        let front = s.drop_last();
        lemma_one_word(front);
        assert(front.push(s.last()) =~= s);
        if s.len() > 1 {
            assert(seq![front].drop_last().push(s) =~= seq![s]);
        } else {
            assert(seq![s.last()] =~= s);
            assert(words(front).push(s) =~= seq![s]);
        }
    }
}

proof fn lemma_words_end(s: Seq<char>)
    requires
        s.len() > 0,
        !text::is_space(s.last()),
    ensures
        words(s).len() > 0,
    decreases s.len(),
{
}

proof fn lemma_words_cut(a: Seq<char>, c: char, b: Seq<char>)
    requires
        text::is_space(c),
    ensures
        words(a.push(c) + b) == words(a) + words(b),
    decreases b.len(),
{
    let s = a.push(c) + b;
    if b.len() == 0 {
        assert(s =~= a.push(c));
        assert(s.drop_last() =~= a);
        assert(words(a) + words(b) =~= words(a));
    } else {
        let front = b.drop_last();
        let x = b.last();
        lemma_words_cut(a, c, front);
        assert(s.drop_last() =~= a.push(c) + front);
        assert(s.last() == x);
        if !text::is_space(x) {
            if b.len() > 1 && !text::is_space(b[b.len() - 2]) {
                assert(s[s.len() - 2] == b[b.len() - 2]);
                assert(front.last() == b[b.len() - 2]);
                lemma_words_end(front);
                let u = words(a);
                let v = words(front);
                assert((u + v).drop_last().push((u + v).last().push(x)) =~= u + v.drop_last().push(
                    v.last().push(x),
                ));
            } else {
                assert(s[s.len() - 2] == if b.len() > 1 {
                    b[b.len() - 2]
                } else {
                    c
                });
                assert((words(a) + words(front)).push(seq![x]) =~= words(a) + words(front).push(
                    seq![x],
                ));
            }
        }
    }
}

/// A line ends at the first line feed, before which a carriage return does not count; what stands
/// behind it is read as if it stood alone.
pub proof fn lines_end_at_line_feeds(
    first: Seq<char>,
    rest: &str,
    all: &str,
    rest_lines: Vec<String>,
    r: Vec<String>,
)
    requires
        !first.contains('\n'),
        all@ == first + seq!['\n'] + rest@,
        call_ensures(text_lines, (rest,), rest_lines),
        call_ensures(text_lines, (all,), r),
    ensures
        r@.len() == rest_lines@.len() + 1,
        first.len() > 0 && first.last() == '\r' ==> r@[0]@.push('\r') == first,
        !(first.len() > 0 && first.last() == '\r') ==> r@[0]@ == first,
        forall|i: int| 0 <= i < rest_lines@.len() ==> (#[trigger] rest_lines@[i])@ == r@[i + 1]@,
{
    let pat = seq!['\n'];
    let parts = text::split(rest@, pat);
    assert forall|i: int| 0 <= i < first.len() implies !#[trigger] text::occurs_at(
        first + pat + rest@,
        pat,
        i,
    ) by {
        if text::occurs_at(first + pat + rest@, pat, i) {
            assert((first + pat + rest@).subrange(i, i + 1)[0] == '\n');
            assert(first[i] == '\n');
        }
    }
    text_facts::lemma_split_first(first, pat, rest@);
    lemma_split_not_empty(rest@, pat);
    assert(lines(all@) =~= seq![without_return(first)] + lines(rest@));
    assert(text::views(r@).len() == r@.len());
    assert(text::views(rest_lines@).len() == rest_lines@.len());
    assert(text::views(r@)[0] == r@[0]@);
    if first.len() > 0 {
        assert(first.drop_last().push(first.last()) =~= first);
    }
    assert forall|i: int| 0 <= i < rest_lines@.len() implies (#[trigger] rest_lines@[i])@ == r@[i
        + 1]@ by {
        assert(text::views(rest_lines@)[i] == text::views(r@)[i + 1]);
    }
}

/// What holds no line feed is one line, or none where nothing is there.
pub proof fn the_last_line_needs_no_line_feed(s: &str, r: Vec<String>)
    requires
        !s@.contains('\n'),
        call_ensures(text_lines, (s,), r),
    ensures
        s@.len() == 0 ==> r@.len() == 0,
        s@.len() > 0 ==> r@.len() == 1 && r@[0]@ == s@,
{
    let pat = seq!['\n'];
    assert forall|i: int| !#[trigger] text::occurs_at(s@, pat, i) by {
        if text::occurs_at(s@, pat, i) {
            assert(s@.subrange(i, i + 1)[0] == '\n');
            assert(s@[i] == '\n');
        }
    }
    text_facts::lemma_split_none(s@, pat);
    assert(text::views(r@).len() == r@.len());
    if s@.len() > 0 {
        assert(text::views(r@)[0] == r@[0]@);
    }
}

/// A command that is not known is repeated and named as such.
pub proof fn unknown_commands_are_named(command: &str, r: Vec<LogLine>)
    requires
        call_ensures(unknown_command_lines, (command,), r),
    ensures
        r@.len() == 2,
        r@[0]@ == LogView::Info("> "@ + command@),
        r@[1]@ == LogView::Warn("Unknown command: '"@ + command@ + "'"@),
{
    let all = text::views(r@);
    assert(all.len() == r@.len());
    assert(all[0] == r@[0]@);
    assert(all[1] == r@[1]@);
}

/// Help is shown line by line, all of it but the lines that start with the word for usage.
pub proof fn help_is_shown_but_for_the_usage(
    help: String,
    written: &str,
    state: &NodeState,
    all: Vec<String>,
    r: Vec<LogLine>,
)
    requires
        written@ == help@,
        call_ensures(text_lines, (written,), all),
        call_ensures(execute, (&TuiCommand::Help(help), state), r),
    ensures
        ({
            let shown = text::views(all@).filter(|l: Seq<char>| !is_usage(l));
            &&& r@.len() == shown.len()
            &&& forall|i: int|
                0 <= i < shown.len() ==> (#[trigger] r@[i])@ == LogView::Info(shown[i])
        }),
{
    let raw = text::views(all@);
    assert forall|l: Seq<char>| starts_with(l, "Usage:"@) == is_usage(l) by {
        if starts_with(l, "Usage:"@) {
            assert(l =~= "Usage:"@ + l.skip("Usage:"@.len() as int));
        }
        if is_usage(l) {
            let rest = choose|rest: Seq<char>| l == #[trigger] ("Usage:"@ + rest);
            assert(l.take("Usage:"@.len() as int) =~= "Usage:"@);
        }
    }
    let keep = |l: Seq<char>| !starts_with(l, "Usage:"@);
    assert(keep =~= (|l: Seq<char>| !is_usage(l)));
    let shown = raw.filter(keep);
    let said = text::views(r@);
    assert(said.len() == r@.len());
    assert forall|i: int| 0 <= i < shown.len() implies (#[trigger] r@[i])@ == LogView::Info(
        shown[i],
    ) by {
        assert(said[i] == r@[i]@);
    }
}

/// The line starts with the word for usage.
pub open spec fn is_usage(line: Seq<char>) -> bool {
    exists|rest: Seq<char>| line == #[trigger] ("Usage:"@ + rest)
}

/// What is wrong with a command is shown line by line, all of it, as warnings.
pub proof fn wrong_commands_are_explained(
    why: String,
    written: &str,
    state: &NodeState,
    all: Vec<String>,
    r: Vec<LogLine>,
)
    requires
        written@ == why@,
        call_ensures(text_lines, (written,), all),
        call_ensures(execute, (&TuiCommand::Invalid(why), state), r),
    ensures
        r@.len() == all@.len(),
        forall|i: int| 0 <= i < all@.len() ==> (#[trigger] r@[i])@ == LogView::Warn(all@[i]@),
{
    let said = text::views(r@);
    assert(said.len() == r@.len());
    assert(text::views(all@).len() == all@.len());
    assert forall|i: int| 0 <= i < all@.len() implies (#[trigger] r@[i])@ == LogView::Warn(
        all@[i]@,
    ) by {
        assert(said[i] == r@[i]@);
        assert(text::views(all@)[i] == all@[i]@);
    }
}

/// All capabilities of the node are named in one line, with commas between them.
pub proof fn all_capabilities_are_named(state: &NodeState, r: Vec<LogLine>)
    requires
        call_ensures(execute, (&TuiCommand::ListCapabilities, state), r),
    ensures
        r@.len() == 1,
        state@.identity.capabilities.len() == 0 ==> r@[0]@ == LogView::Info("No capabilities"@),
        state@.identity.capabilities.len() > 0 ==> r@[0]@ == LogView::Info(
            "Capabilities: "@ + text::join(state@.identity.capabilities, ", "@),
        ),
{
    let said = text::views(r@);
    assert(said.len() == r@.len());
    assert(said[0] == r@[0]@);
}

/// All recipes that the node knows are listed, in ascending order of the names and each with where
/// it is and what nobody can do of it.
pub proof fn all_recipes_are_shown(
    state: &NodeState,
    answer: TcpMessage,
    names: Seq<Seq<char>>,
    r: Vec<LogLine>,
)
    requires
        call_ensures(handle_list_recipes, (state,), answer),
        answer@ matches TcpView::RecipeListAnswer { recipes } ==> order::ascending(names)
            && names.to_set() == recipes.dom(),
        call_ensures(execute, (&TuiCommand::ListRecipes, state), r),
    ensures
        answer@ matches TcpView::RecipeListAnswer { recipes } && {
            &&& names.len() == 0 ==> r@.len() == 1 && r@[0]@ == LogView::Info(
                "No recipes available"@,
            )
            &&& names.len() > 0 ==> r@.len() == names.len() + 1 && r@[0]@ == LogView::Info(
                "Available recipes:"@,
            )
            &&& forall|i: int|
                0 <= i < names.len() ==> ((#[trigger] r@[i + 1])@ matches LogView::Info(row)
                    && client_impl::is_row(row, names[i], recipes[names[i]]))
        },
{
    let recipes = listing::recipe_list(state@);
    assert(answer@ == TcpView::RecipeListAnswer { recipes });
    client_impl::lemma_rows(recipes, names);
    let rows = client_impl::availability_rows(recipes);
    let said = text::views(r@);
    assert(said.len() == r@.len());
    assert(said[0] == r@[0]@);
    assert forall|i: int| 0 <= i < names.len() implies ((#[trigger] r@[i + 1])@ matches
        LogView::Info(row) && client_impl::is_row(row, names[i], recipes[names[i]])) by {
        assert(said[i + 1] == LogView::Info(rows[i]));
        assert(said[i + 1] == r@[i + 1]@);
    }
}

} // verus!
