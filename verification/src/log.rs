//! The recomputation log and its text rendering.
use vstd::prelude::*;
use vstd::string::StrSliceExecFns;
use vstd::string::StringExecFns;

verus! {

/// A single recomputation event.
#[derive(Debug, Clone)]
pub struct LogEntry {
    pub node: String,
    pub recomputed: bool,
    pub duration_us: u64,
}

/// Accumulated recomputation log.
#[derive(Debug)]
pub struct Log {
    entries: Vec<LogEntry>,
}

impl View for Log {
    type V = Seq<LogEntry>;

    closed spec fn view(&self) -> Seq<LogEntry> {
        self.entries@
    }
}

impl Default for Log {
    fn default() -> (log: Log)
        ensures
            log@ == Seq::<LogEntry>::empty(),
    {
        Log { entries: Vec::new() }
    }
}

/// `n` spaces.
pub open spec fn spaces(n: nat) -> Seq<char> {
    Seq::new(n, |i: int| ' ')
}

/// `s` followed by spaces up to `width` characters (as `{:<width}` formats it).
pub open spec fn pad_right(s: Seq<char>, width: nat) -> Seq<char> {
    if s.len() < width {
        s + spaces((width - s.len()) as nat)
    } else {
        s
    }
}

/// `s` preceded by spaces up to `width` characters (as `{:>width}` formats it).
pub open spec fn pad_left(s: Seq<char>, width: nat) -> Seq<char> {
    if s.len() < width {
        spaces((width - s.len()) as nat) + s
    } else {
        s
    }
}

/// The ten decimal digits.
pub open spec fn decimal_digits() -> Seq<char> {
    seq!['0', '1', '2', '3', '4', '5', '6', '7', '8', '9']
}

/// The decimal notation of `n`, without leading zeros.
pub open spec fn decimal(n: nat) -> Seq<char>
    decreases n,
{
    if n < 10 {
        seq![decimal_digits()[n as int]]
    } else {
        decimal(n / 10).push(decimal_digits()[(n % 10) as int])
    }
}

/// How a `bool` is displayed.
pub open spec fn bool_text(b: bool) -> Seq<char> {
    if b {
        seq!['t', 'r', 'u', 'e']
    } else {
        seq!['f', 'a', 'l', 's', 'e']
    }
}

/// One table row: a left-aligned column of 20 characters and two right-aligned
/// columns of 12, separated by single spaces.
pub open spec fn table_row(a: Seq<char>, b: Seq<char>, c: Seq<char>) -> Seq<char> {
    pad_right(a, 20) + seq![' '] + pad_left(b, 12) + seq![' '] + pad_left(c, 12)
}

/// The header row of the log table.
pub open spec fn header_line() -> Seq<char> {
    table_row(
        seq!['n', 'o', 'd', 'e'],
        seq!['r', 'e', 'c', 'o', 'm', 'p', 'u', 't', 'e', 'd'],
        seq!['μ', 's'],
    )
}

/// The rule under the header: 46 dashes.
pub open spec fn rule_line() -> Seq<char> {
    Seq::new(46, |i: int| '-')
}

/// The line shown for a log without entries.
pub open spec fn empty_log_line() -> Seq<char> {
    seq![
        '(', 'n', 'o', ' ', 'r', 'e', 'c', 'o', 'm', 'p', 'u', 't', 'a', 't', 'i', 'o', 'n', 's',
        ' ', 'l', 'o', 'g', 'g', 'e', 'd', ')'
    ]
}

/// The table row of one entry.
pub open spec fn entry_line(e: LogEntry) -> Seq<char> {
    table_row(e.node@, bool_text(e.recomputed), decimal(e.duration_us as nat))
}

/// The lines that describe a log: a notice when it is empty, otherwise a header,
/// a rule and one row per entry.
pub open spec fn log_lines(entries: Seq<LogEntry>) -> Seq<Seq<char>> {
    if entries.len() == 0 {
        seq![empty_log_line()]
    } else {
        seq![header_line(), rule_line()] + entries.map_values(|e: LogEntry| entry_line(e))
    }
}

/// Appends `n` copies of `unit` (a one-character string) to `s`.
fn push_repeated(s: &mut String, unit: &str, n: usize)
    requires
        unit@.len() == 1,
    ensures
        final(s)@ == old(s)@ + Seq::new(n as nat, |i: int| unit@[0]),
{
    let mut k: usize = 0;
    while k < n
        invariant
            k <= n,
            unit@.len() == 1,
            s@ == old(s)@ + Seq::new(k as nat, |i: int| unit@[0]),
        decreases n - k,
    {
        s.append(unit);
        assert(s@ =~= old(s)@ + Seq::new((k + 1) as nat, |i: int| unit@[0]));
        k = k + 1;
    }
}

/// `text` padded with spaces on the right to `width` characters.
fn padded_right(text: &str, width: usize) -> (r: String)
    ensures
        r@ == pad_right(text@, width as nat),
{
    let mut r = String::from_str(text);
    let len = text.unicode_len();
    if len < width {
        let space = " ";
        proof {
            reveal_strlit(" ");
        }
        push_repeated(&mut r, space, width - len);
        assert(r@ =~= pad_right(text@, width as nat));
    }
    r
}

/// `text` padded with spaces on the left to `width` characters.
fn padded_left(text: &str, width: usize) -> (r: String)
    ensures
        r@ == pad_left(text@, width as nat),
{
    let len = text.unicode_len();
    let mut r = String::new();
    if len < width {
        let space = " ";
        proof {
            reveal_strlit(" ");
        }
        push_repeated(&mut r, space, width - len);
    }
    r.append(text);
    assert(r@ =~= pad_left(text@, width as nat));
    r
}

/// The decimal notation of `n`.
fn decimal_text(n: u64) -> (r: String)
    ensures
        r@ == decimal(n as nat),
{
    let digits = "0123456789";
    proof {
        reveal_strlit("0123456789");
        assert(digits@ =~= decimal_digits());
    }
    let mut m: u64 = n;
    let mut acc = String::new();
    loop
        invariant
            digits@ == decimal_digits(),
            decimal(n as nat) == decimal(m as nat) + acc@,
        decreases m,
    {
        let d: usize = (m % 10) as usize;
        let digit = String::from_str(digits.substring_char(d, d + 1));
        assert(digit@ =~= seq![decimal_digits()[d as int]]);
        if m < 10 {
            let r = digit.concat(acc.as_str());
            assert(r@ =~= decimal(n as nat));
            return r;
        }
        let next = digit.concat(acc.as_str());
        assert(decimal(m as nat) == decimal((m / 10) as nat).push(decimal_digits()[(m % 10) as int]));
        assert(decimal(n as nat) =~= decimal((m / 10) as nat) + next@);
        acc = next;
        m = m / 10;
    }
}

/// How `b` is displayed.
fn bool_display(b: bool) -> (r: String)
    ensures
        r@ == bool_text(b),
{
    if b {
        let t = "true";
        proof {
            reveal_strlit("true");
        }
        let r = String::from_str(t);
        assert(r@ =~= bool_text(b));
        r
    } else {
        let f = "false";
        proof {
            reveal_strlit("false");
        }
        let r = String::from_str(f);
        assert(r@ =~= bool_text(b));
        r
    }
}

/// One table row from its three cells.
fn row_text(a: &str, b: &str, c: &str) -> (r: String)
    ensures
        r@ == table_row(a@, b@, c@),
{
    let space = " ";
    proof {
        reveal_strlit(" ");
    }
    let mut r = padded_right(a, 20);
    r.append(space);
    let mid = padded_left(b, 12);
    r.append(mid.as_str());
    r.append(space);
    let last = padded_left(c, 12);
    r.append(last.as_str());
    assert(r@ =~= table_row(a@, b@, c@));
    r
}

impl Log {
    /// Appends `entry`.
    pub fn push(&mut self, entry: LogEntry)
        ensures
            final(self)@ == old(self)@.push(entry),
    {
        self.entries.push(entry);
    }

    /// All entries, oldest first.
    pub fn entries(&self) -> (r: &[LogEntry])
        ensures
            r@ == self@,
    {
        self.entries.as_slice()
    }

    /// Removes every entry.
    pub fn clear(&mut self)
        ensures
            final(self)@ == Seq::<LogEntry>::empty(),
    {
        self.entries.clear();
    }

    /// The lines of the log table, as `print` shows them.
    pub fn lines(&self) -> (r: Vec<String>)
        ensures
            r@.map_values(|s: String| s@) == log_lines(self@),
    {
        let mut r: Vec<String> = Vec::new();
        if self.entries.len() == 0 {
            let text = "(no recomputations logged)";
            proof {
                reveal_strlit("(no recomputations logged)");
                assert(text@ =~= empty_log_line());
            }
            r.push(String::from_str(text));
            assert(r@.map_values(|s: String| s@) =~= log_lines(self@));
            return r;
        }
        let node = "node";
        let recomputed = "recomputed";
        let micros = "μs";
        let dash = "-";
        proof {
            reveal_strlit("node");
            reveal_strlit("recomputed");
            reveal_strlit("μs");
            reveal_strlit("-");
            assert(node@ =~= seq!['n', 'o', 'd', 'e']);
            assert(recomputed@ =~= seq!['r', 'e', 'c', 'o', 'm', 'p', 'u', 't', 'e', 'd']);
            assert(micros@ =~= seq!['μ', 's']);
        }
        r.push(row_text(node, recomputed, micros));
        let mut rule = String::new();
        push_repeated(&mut rule, dash, 46);
        assert(rule@ =~= rule_line());
        r.push(rule);
        let mut i: usize = 0;
        while i < self.entries.len()
            invariant
                i <= self.entries@.len(),
                r@.len() == i + 2,
                r@[0]@ == header_line(),
                r@[1]@ == rule_line(),
                forall|k: int| 0 <= k < i ==> #[trigger] r@[k + 2]@ == entry_line(self.entries@[k]),
            decreases self.entries@.len() - i,
        {
            let e = &self.entries[i];
            let flag = bool_display(e.recomputed);
            let micros_text = decimal_text(e.duration_us);
            let line = row_text(e.node.as_str(), flag.as_str(), micros_text.as_str());
            r.push(line);
            i = i + 1;
        }
        let ghost mapped = r@.map_values(|s: String| s@);
        assert(mapped =~= log_lines(self@)) by {
            assert forall|k: int| 0 <= k < mapped.len() implies mapped[k] == log_lines(self@)[k] by {
                if k >= 2 {
                    assert(r@[(k - 2) + 2]@ == entry_line(self.entries@[k - 2]));
                }
            }
        }
        r
    }
}

/// A call that changes a log: `push` of an entry, or `clear`.
pub enum LogOp {
    Push(LogEntry),
    Clear,
}

/// The entries after `op`, as the contracts of `push` and `clear` give them.
pub open spec fn apply_op(entries: Seq<LogEntry>, op: LogOp) -> Seq<LogEntry> {
    match op {
        LogOp::Push(e) => entries.push(e),
        LogOp::Clear => Seq::empty(),
    }
}

/// The entries of a log that starts empty, after the calls `ops` in order.
pub open spec fn replay(ops: Seq<LogOp>) -> Seq<LogEntry>
    decreases ops.len(),
{
    if ops.len() == 0 {
        Seq::empty()
    } else {
        apply_op(replay(ops.drop_last()), ops.last())
    }
}

/// The position of the last `clear` among `ops`, or -1 when there is none.
pub open spec fn last_clear(ops: Seq<LogOp>) -> int
    decreases ops.len(),
{
    if ops.len() == 0 {
        -1
    } else if ops.last() is Clear {
        ops.len() - 1
    } else {
        last_clear(ops.drop_last())
    }
}

/// The entry that a `push` carries.
pub open spec fn pushed_entry(op: LogOp) -> LogEntry
    recommends
        op is Push,
{
    match op {
        LogOp::Push(e) => e,
        LogOp::Clear => arbitrary(),
    }
}

/// A log that starts empty holds, after any run of `push` and `clear` calls, the
/// entries pushed since the last `clear` (or since it was made), in push order.
pub proof fn law_log_replay(ops: Seq<LogOp>)
    ensures
        -1 <= last_clear(ops) < ops.len(),
        forall|k: int| last_clear(ops) < k < ops.len() ==> #[trigger] ops[k] is Push,
        replay(ops) == ops.subrange(last_clear(ops) + 1, ops.len() as int).map_values(|op: LogOp| pushed_entry(op)),
    decreases ops.len(),
{
    if ops.len() > 0 {
        let rest = ops.drop_last();
        law_log_replay(rest);
        assert forall|k: int| last_clear(ops) < k < ops.len() implies #[trigger] ops[k] is Push by {
            if k < ops.len() - 1 {
                assert(ops[k] == rest[k]);
            }
        }
        if !(ops.last() is Clear) {
            let c = last_clear(rest);
            assert(ops.subrange(c + 1, ops.len() as int).map_values(|op: LogOp| pushed_entry(op))
                =~= rest.subrange(c + 1, rest.len() as int).map_values(|op: LogOp| pushed_entry(op)).push(
                pushed_entry(ops.last()),
            ));
        } else {
            assert(ops.subrange(ops.len() as int, ops.len() as int).map_values(|op: LogOp| pushed_entry(op)) =~= Seq::<
                LogEntry,
            >::empty());
        }
    }
}

} // verus!
