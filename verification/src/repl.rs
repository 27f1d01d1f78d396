//! The decisions of the interactive loop: what a line asks for, and what the
//! loop does about it, given the log file it writes to and whether it holds
//! a result. Reading lines, printing, writing files and evaluating are the
//! caller's; it performs the action it is handed and reports back whether an
//! evaluation gave a result.
use crate::args::{opt_view, same_text};
use crate::display::INLINE_LIMIT;
use crate::natural::{decimal, Natural};
use vstd::prelude::*;

verus! {

/// The characters with Unicode's `White_Space` property, those that
/// `str::trim` removes.
pub open spec fn is_space(c: char) -> bool {
    let x = c as u32;
    ||| 0x09 <= x <= 0x0D
    ||| x == 0x20
    ||| x == 0x85
    ||| x == 0xA0
    ||| x == 0x1680
    ||| 0x2000 <= x <= 0x200A
    ||| x == 0x2028
    ||| x == 0x2029
    ||| x == 0x202F
    ||| x == 0x205F
    ||| x == 0x3000
}

/// The first position from `i` on that holds no space.
pub open spec fn skip_front(s: Seq<char>, i: int) -> int
    decreases s.len() - i,
{
    if 0 <= i < s.len() && is_space(s[i]) {
        skip_front(s, i + 1)
    } else {
        i
    }
}

/// The end of `s[lo..j]` once the spaces at its end are dropped.
pub open spec fn skip_back(s: Seq<char>, lo: int, j: int) -> int
    decreases j - lo,
{
    if lo < j && is_space(s[j - 1]) {
        skip_back(s, lo, j - 1)
    } else {
        j
    }
}

/// `s` without its leading and trailing spaces.
pub open spec fn trimmed(s: Seq<char>) -> Seq<char> {
    let lo = skip_front(s, 0);
    s.subrange(lo, skip_back(s, lo, s.len() as int))
}

/// Whether `c` is a space (see `is_space`).
pub fn is_space_char(c: char) -> (r: bool)
    ensures
        r == is_space(c),
{
    let x = c as u32;
    (0x09 <= x && x <= 0x0D) || x == 0x20 || x == 0x85 || x == 0xA0 || x == 0x1680 || (0x2000
        <= x && x <= 0x200A) || x == 0x2028 || x == 0x2029 || x == 0x202F || x == 0x205F || x
        == 0x3000
}

/// `s` without its leading and trailing spaces.
pub fn trim(s: &str) -> (r: String)
    ensures
        r@ == trimmed(s@),
{
    let n = s.unicode_len();
    let mut lo: usize = 0;
    while lo < n && is_space_char(s.get_char(lo))
        invariant
            n == s@.len(),
            lo <= n,
            skip_front(s@, 0) == skip_front(s@, lo as int),
        decreases n - lo,
    {
        lo = lo + 1;
    }
    let mut hi: usize = n;
    while hi > lo && is_space_char(s.get_char(hi - 1))
        invariant
            n == s@.len(),
            lo <= hi <= n,
            skip_front(s@, 0) == lo,
            skip_back(s@, lo as int, n as int) == skip_back(s@, lo as int, hi as int),
        decreases hi,
    {
        hi = hi - 1;
    }
    String::from_str(s.substring_char(lo, hi))
}

/// What a line asks for.
#[derive(Debug)]
pub enum Command {
    /// A line of spaces only.
    Blank,
    /// `:save <file>`: log every evaluation to the file.
    Save(String),
    /// `:dump <file>`: write the last result in full to the file.
    Dump(String),
    /// `:quit` or `:q`.
    Quit,
    /// `:full`: print the last result in full.
    Full,
    /// `:digits`: print the number of digits of the last result.
    Digits,
    /// Anything else: an expression to evaluate.
    Eval(String),
}

/// A command, with its texts as character sequences.
pub enum CommandView {
    Blank,
    Save(Seq<char>),
    Dump(Seq<char>),
    Quit,
    Full,
    Digits,
    Eval(Seq<char>),
}

impl View for Command {
    type V = CommandView;

    open spec fn view(&self) -> CommandView {
        match self {
            Command::Blank => CommandView::Blank,
            Command::Save(p) => CommandView::Save(p@),
            Command::Dump(p) => CommandView::Dump(p@),
            Command::Quit => CommandView::Quit,
            Command::Full => CommandView::Full,
            Command::Digits => CommandView::Digits,
            Command::Eval(e) => CommandView::Eval(e@),
        }
    }
}

/// `t` starts with `prefix`.
pub open spec fn has_prefix(t: Seq<char>, prefix: Seq<char>) -> bool {
    t.len() >= prefix.len() && t.take(prefix.len() as int) == prefix
}

/// What the line `line` asks for. It is read without its surrounding
/// spaces: `:save ` and `:dump ` followed by a file name (itself trimmed),
/// one of the words `:quit`, `:q`, `:full`, `:digits`, or else an expression.
pub open spec fn command_spec(line: Seq<char>) -> CommandView {
    let t = trimmed(line);
    if t.len() == 0 {
        CommandView::Blank
    } else if has_prefix(t, ":save "@) {
        CommandView::Save(trimmed(t.skip(":save "@.len() as int)))
    } else if has_prefix(t, ":dump "@) {
        CommandView::Dump(trimmed(t.skip(":dump "@.len() as int)))
    } else if t == ":quit"@ || t == ":q"@ {
        CommandView::Quit
    } else if t == ":full"@ {
        CommandView::Full
    } else if t == ":digits"@ {
        CommandView::Digits
    } else {
        CommandView::Eval(t)
    }
}

/// Whether `t` starts with `prefix`, and what follows it.
fn strip_prefix(t: &str, prefix: &str) -> (r: Option<String>)
    ensures
        r is Some <==> has_prefix(t@, prefix@),
        r matches Some(rest) ==> rest@ == t@.skip(prefix@.len() as int),
{
    let n = t.unicode_len();
    let k = prefix.unicode_len();
    if n < k {
        return None;
    }
    if !same_text(t.substring_char(0, k), prefix) {
        proof {
            assert(t@.subrange(0, k as int) == t@.take(k as int));
        }
        return None;
    }
    proof {
        assert(t@.subrange(0, k as int) == t@.take(k as int));
        assert(t@.subrange(k as int, n as int) == t@.skip(k as int));
    }
    Some(String::from_str(t.substring_char(k, n)))
}

/// What the line `line` asks for (see `command_spec`).
pub fn parse_command(line: &str) -> (c: Command)
    ensures
        c@ == command_spec(line@),
{
    let t = trim(line);
    let ts = t.as_str();
    if ts.unicode_len() == 0 {
        return Command::Blank;
    }
    match strip_prefix(ts, ":save ") {
        Some(rest) => return Command::Save(trim(rest.as_str())),
        None => {},
    }
    match strip_prefix(ts, ":dump ") {
        Some(rest) => return Command::Dump(trim(rest.as_str())),
        None => {},
    }
    if same_text(ts, ":quit") || same_text(ts, ":q") {
        Command::Quit
    } else if same_text(ts, ":full") {
        Command::Full
    } else if same_text(ts, ":digits") {
        Command::Digits
    } else {
        Command::Eval(t)
    }
}

/// What the loop keeps between lines: the file it logs evaluations to, and
/// whether it holds a result.
pub struct Session {
    pub log_file: Option<String>,
    pub has_last: bool,
}

/// A session, with the file name as a character sequence.
pub struct SessionView {
    pub log_file: Option<Seq<char>>,
    pub has_last: bool,
}

impl View for Session {
    type V = SessionView;

    open spec fn view(&self) -> SessionView {
        SessionView { log_file: opt_view(self.log_file), has_last: self.has_last }
    }
}

/// What the loop does next.
#[derive(Debug)]
pub enum Action {
    /// Nothing: read the next line.
    Nothing,
    /// Say that evaluations are now logged to the file.
    StartLog(String),
    /// Write the last result in full to the file.
    Dump(String),
    /// Say that there is no result to dump.
    NoResultToDump,
    /// Say that there is no result.
    NoResult,
    /// Print the last result in full, and log it to the file if there is one.
    ShowFull(Option<String>),
    /// Print the number of digits of the last result.
    ShowDigits,
    /// Evaluate the expression, print the outcome, and log a result to the
    /// file if there is one.
    Evaluate(String, Option<String>),
    /// Leave the loop.
    Quit,
}

/// An action, with its texts as character sequences.
pub enum ActionView {
    Nothing,
    StartLog(Seq<char>),
    Dump(Seq<char>),
    NoResultToDump,
    NoResult,
    ShowFull(Option<Seq<char>>),
    ShowDigits,
    Evaluate(Seq<char>, Option<Seq<char>>),
    Quit,
}

impl View for Action {
    type V = ActionView;

    open spec fn view(&self) -> ActionView {
        match self {
            Action::Nothing => ActionView::Nothing,
            Action::StartLog(p) => ActionView::StartLog(p@),
            Action::Dump(p) => ActionView::Dump(p@),
            Action::NoResultToDump => ActionView::NoResultToDump,
            Action::NoResult => ActionView::NoResult,
            Action::ShowFull(l) => ActionView::ShowFull(opt_view(*l)),
            Action::ShowDigits => ActionView::ShowDigits,
            Action::Evaluate(e, l) => ActionView::Evaluate(e@, opt_view(*l)),
            Action::Quit => ActionView::Quit,
        }
    }
}

/// The next session and the action for the command `c` in session `s`.
/// `:save` changes the log file; the commands on the last result need one;
/// an expression is evaluated and logged to the current file.
pub open spec fn step_spec(s: SessionView, c: CommandView) -> (SessionView, ActionView) {
    match c {
        CommandView::Blank => (s, ActionView::Nothing),
        CommandView::Save(p) => (
            SessionView { log_file: Some(p), has_last: s.has_last },
            ActionView::StartLog(p),
        ),
        CommandView::Dump(p) => (s, if s.has_last {
            ActionView::Dump(p)
        } else {
            ActionView::NoResultToDump
        }),
        CommandView::Quit => (s, ActionView::Quit),
        CommandView::Full => (s, if s.has_last {
            ActionView::ShowFull(s.log_file)
        } else {
            ActionView::NoResult
        }),
        CommandView::Digits => (s, if s.has_last {
            ActionView::ShowDigits
        } else {
            ActionView::NoResult
        }),
        CommandView::Eval(e) => (s, ActionView::Evaluate(e, s.log_file)),
    }
}

/// What every step keeps: only `:save` changes the log file, and it sets it
/// to the file named; a line never forgets a result, and an evaluation that
/// gives one makes the session hold one. Every expression is evaluated and
/// logged to the file that the latest `:save` named (or the one the session
/// started with), and the commands on the last result act exactly when the
/// session holds one.
pub proof fn lemma_session_laws(s: SessionView, c: CommandView, ok: bool)
    ensures
        step_spec(s, c).0.has_last == s.has_last,
        c is Save ==> step_spec(s, c).0.log_file == Some(c->Save_0),
        !(c is Save) ==> step_spec(s, c).0.log_file == s.log_file,
        c is Blank ==> step_spec(s, c).1 == ActionView::Nothing,
        c is Quit ==> step_spec(s, c).1 == ActionView::Quit,
        c matches CommandView::Save(p) ==> step_spec(s, c).1 == ActionView::StartLog(p),
        c matches CommandView::Eval(e) ==> step_spec(s, c).1 == ActionView::Evaluate(
            e,
            s.log_file,
        ),
        c matches CommandView::Dump(p) ==> step_spec(s, c).1 == if s.has_last {
            ActionView::Dump(p)
        } else {
            ActionView::NoResultToDump
        },
        c is Full ==> step_spec(s, c).1 == if s.has_last {
            ActionView::ShowFull(s.log_file)
        } else {
            ActionView::NoResult
        },
        c is Digits ==> step_spec(s, c).1 == if s.has_last {
            ActionView::ShowDigits
        } else {
            ActionView::NoResult
        },
        evaluated_spec(s, ok).log_file == s.log_file,
        evaluated_spec(s, ok).has_last == (s.has_last || ok),
{
}

/// The shape of a trimmed text: `s` is `trimmed(s)` with spaces before and
/// after it, and `trimmed(s)` neither starts nor ends with a space.
pub proof fn lemma_trimmed_shape(s: Seq<char>)
    ensures
        exists|lo: int, hi: int|
            #![trigger s.subrange(lo, hi)]
            0 <= lo <= hi <= s.len() && trimmed(s) == s.subrange(lo, hi) && (forall|k: int|
                0 <= k < lo ==> is_space(#[trigger] s[k])) && (forall|k: int|
                hi <= k < s.len() ==> is_space(#[trigger] s[k])),
        trimmed(s).len() > 0 ==> !is_space(trimmed(s)[0]) && !is_space(trimmed(s).last()),
        trimmed(s).len() == 0 ==> forall|k: int| 0 <= k < s.len() ==> is_space(#[trigger] s[k]),
{
    let lo = skip_front(s, 0);
    lemma_skip_front_shape(s, 0);
    let hi = skip_back(s, lo, s.len() as int);
    lemma_skip_back_shape(s, lo, s.len() as int);
    assert(trimmed(s) == s.subrange(lo, hi));
    if hi == lo {
        assert forall|k: int| 0 <= k < s.len() implies is_space(#[trigger] s[k]) by {
            if k >= lo {
                assert(hi <= k);
            }
        }
    }
}

proof fn lemma_skip_front_shape(s: Seq<char>, i: int)
    requires
        0 <= i <= s.len(),
    ensures
        i <= skip_front(s, i) <= s.len(),
        forall|k: int| i <= k < skip_front(s, i) ==> is_space(#[trigger] s[k]),
        skip_front(s, i) < s.len() ==> !is_space(s[skip_front(s, i)]),
    decreases s.len() - i,
{
    if i < s.len() && is_space(s[i]) {
        lemma_skip_front_shape(s, i + 1);
    }
}

proof fn lemma_skip_back_shape(s: Seq<char>, lo: int, j: int)
    requires
        0 <= lo <= j <= s.len(),
    ensures
        lo <= skip_back(s, lo, j) <= j,
        forall|k: int| skip_back(s, lo, j) <= k < j ==> is_space(#[trigger] s[k]),
        lo < skip_back(s, lo, j) ==> !is_space(s[skip_back(s, lo, j) - 1]),
    decreases j - lo,
{
    if lo < j && is_space(s[j - 1]) {
        lemma_skip_back_shape(s, lo, j - 1);
    }
}

/// What a line makes the loop do, by the text of the line with its spaces
/// around removed: nothing for an empty line; quit for `:quit` or `:q`,
/// whatever the session holds; for `:full` and `:digits`, act on the last
/// result or say there is none; for a line that does not start with `:`,
/// evaluate that text and log it to the current log file.
pub proof fn lemma_line_actions(s: SessionView, line: Seq<char>)
    ensures
        trimmed(line).len() == 0 ==> step_spec(s, command_spec(line)).1 == ActionView::Nothing,
        trimmed(line) == ":quit"@ || trimmed(line) == ":q"@ ==> step_spec(
            s,
            command_spec(line),
        ).1 == ActionView::Quit,
        trimmed(line) == ":full"@ ==> step_spec(s, command_spec(line)).1 == if s.has_last {
            ActionView::ShowFull(s.log_file)
        } else {
            ActionView::NoResult
        },
        trimmed(line) == ":digits"@ ==> step_spec(s, command_spec(line)).1 == if s.has_last {
            ActionView::ShowDigits
        } else {
            ActionView::NoResult
        },
        trimmed(line).len() > 0 && trimmed(line)[0] != ':' ==> step_spec(
            s,
            command_spec(line),
        ).1 == ActionView::Evaluate(trimmed(line), s.log_file),
        step_spec(s, command_spec(line)).0.has_last == s.has_last,
{
    reveal_strlit(":quit");
    reveal_strlit(":q");
    reveal_strlit(":full");
    reveal_strlit(":digits");
    reveal_strlit(":save ");
    reveal_strlit(":dump ");
    let t = trimmed(line);
    if t == ":full"@ {
        assert(t[1] == 'f' && ":quit"@[1] == 'q');
        assert(t != ":quit"@ && t != ":q"@);
    }
    if t == ":digits"@ {
        assert(t.take(6)[1] == 'd' && t.take(6)[2] == 'i');
        assert(!has_prefix(t, ":save "@) && !has_prefix(t, ":dump "@));
    }
    if t.len() > 0 && t[0] != ':' {
        assert(!has_prefix(t, ":save "@)) by {
            if has_prefix(t, ":save "@) {
                assert(t.take(6)[0] == ':');
            }
        }
        assert(!has_prefix(t, ":dump "@)) by {
            if has_prefix(t, ":dump "@) {
                assert(t.take(6)[0] == ':');
            }
        }
        assert(t != ":quit"@ && t != ":q"@ && t != ":full"@ && t != ":digits"@) by {
            if t == ":quit"@ || t == ":q"@ || t == ":full"@ || t == ":digits"@ {
                assert(t[0] == ':');
            }
        }
    }
}

/// The file that `:save` or `:dump` names is the rest of the line after the
/// command word, without the spaces around it: the rest is spaces followed
/// by the file, and the file is not empty and neither starts nor ends with a
/// space.
pub proof fn lemma_named_file(line: Seq<char>)
    ensures
        command_spec(line) matches CommandView::Save(f) ==> named_after(
            trimmed(line).skip(6),
            f,
        ),
        command_spec(line) matches CommandView::Dump(f) ==> named_after(
            trimmed(line).skip(6),
            f,
        ),
{
    reveal_strlit(":save ");
    reveal_strlit(":dump ");
    let t = trimmed(line);
    lemma_trimmed_shape(line);
    if t.len() > 0 && (has_prefix(t, ":save "@) || has_prefix(t, ":dump "@)) {
        let r = t.skip(6);
        lemma_trimmed_shape(r);
        let f = trimmed(r);
        assert(t.take(6)[5] == ' ');
        assert(t[5] == ' ');
        assert(t.len() > 6) by {
            if t.len() == 6 {
                assert(t.last() == ' ');
            }
        }
        assert(r.last() == t.last());
        if f.len() == 0 {
            assert(is_space(r[r.len() - 1]));
        }
        let (lo, hi) = choose|lo: int, hi: int|
            #![trigger r.subrange(lo, hi)]
            0 <= lo <= hi <= r.len() && f == r.subrange(lo, hi) && (forall|k: int|
                0 <= k < lo ==> is_space(#[trigger] r[k])) && (forall|k: int|
                hi <= k < r.len() ==> is_space(#[trigger] r[k]));
        assert(hi == r.len()) by {
            if hi < r.len() {
                assert(is_space(r[r.len() - 1]));
            }
        }
        assert(r.skip(r.len() - f.len()) == f);
        assert forall|k: int| 0 <= k < r.len() - f.len() implies is_space(#[trigger] r[k]) by {}
    }
}

/// `f` is `r` without the spaces in front of it, and holds a character that
/// is not a space at each end.
pub open spec fn named_after(r: Seq<char>, f: Seq<char>) -> bool {
    &&& 0 < f.len() <= r.len()
    &&& r.skip(r.len() - f.len()) == f
    &&& forall|k: int| 0 <= k < r.len() - f.len() ==> is_space(#[trigger] r[k])
    &&& !is_space(f[0])
    &&& !is_space(f.last())
}

/// The session once an evaluation has ended, with a result when `ok`: it
/// holds a result from then on.
pub open spec fn evaluated_spec(s: SessionView, ok: bool) -> SessionView {
    SessionView { log_file: s.log_file, has_last: s.has_last || ok }
}

fn copy_opt(o: &Option<String>) -> (r: Option<String>)
    ensures
        opt_view(r) == opt_view(*o),
{
    match o {
        Some(p) => Some(p.clone()),
        None => None,
    }
}

impl Session {
    /// A session that logs to `log_file`, if given, and holds no result.
    pub fn new(log_file: Option<String>) -> (r: Session)
        ensures
            r@ == (SessionView { log_file: opt_view(log_file), has_last: false }),
    {
        Session { log_file, has_last: false }
    }

    /// The next session and the action for the command `c`.
    pub fn step(&self, c: Command) -> (r: (Session, Action))
        ensures
            (r.0@, r.1@) == step_spec(self@, c@),
    {
        let same = Session { log_file: copy_opt(&self.log_file), has_last: self.has_last };
        match c {
            Command::Blank => (same, Action::Nothing),
            Command::Save(p) => {
                let q = p.clone();
                (Session { log_file: Some(p), has_last: self.has_last }, Action::StartLog(q))
            },
            Command::Dump(p) => {
                if self.has_last {
                    (same, Action::Dump(p))
                } else {
                    (same, Action::NoResultToDump)
                }
            },
            Command::Quit => (same, Action::Quit),
            Command::Full => {
                if self.has_last {
                    (same, Action::ShowFull(copy_opt(&self.log_file)))
                } else {
                    (same, Action::NoResult)
                }
            },
            Command::Digits => {
                if self.has_last {
                    (same, Action::ShowDigits)
                } else {
                    (same, Action::NoResult)
                }
            },
            Command::Eval(e) => (same, Action::Evaluate(e, copy_opt(&self.log_file))),
        }
    }

    /// The session once an evaluation has ended, with a result when `ok`.
    pub fn evaluated(&self, ok: bool) -> (r: Session)
        ensures
            r@ == evaluated_spec(self@, ok),
    {
        Session { log_file: copy_opt(&self.log_file), has_last: self.has_last || ok }
    }
}

/// What `:digits` prints for a result whose digit count is estimated as
/// `approx`: up to `INLINE_LIMIT` the exact count when the result is an
/// integer (`exact`), the estimate for a float; above it the estimate,
/// marked as such.
pub open spec fn digits_report_spec(approx: nat, exact: Option<nat>) -> Seq<char> {
    if approx <= INLINE_LIMIT {
        match exact {
            Some(d) => decimal(d) + " digits"@,
            None => "~"@ + decimal(approx) + " digits"@,
        }
    } else {
        "~"@ + decimal(approx) + " digits (approximate)"@
    }
}

/// What `:digits` prints (see `digits_report_spec`).
pub fn digits_report(approx: usize, exact: Option<usize>) -> (r: String)
    ensures
        r@ == digits_report_spec(
            approx as nat,
            match exact {
                Some(d) => Some(d as nat),
                None => None,
            },
        ),
{
    if approx <= INLINE_LIMIT {
        match exact {
            Some(d) => {
                let mut s = Natural::from_u64(d as u64).to_decimal();
                s.append(" digits");
                s
            },
            None => {
                let mut s = String::from_str("~");
                s.append(Natural::from_u64(approx as u64).to_decimal().as_str());
                s.append(" digits");
                s
            },
        }
    } else {
        let mut s = String::from_str("~");
        s.append(Natural::from_u64(approx as u64).to_decimal().as_str());
        s.append(" digits (approximate)");
        s
    }
}

} // verus!
