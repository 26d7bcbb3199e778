//! Single-instance supervision. At most one agent should sample a host. The
//! agents agree on the owner through a record that holds the owner's
//! process identifier: a starting agent reads the record and the host's
//! process table and decides whether to run, and what to do to the record.

use crate::decimal::{all_digits, decimal_text, digits_value, is_digit, lemma_decimal_text_value,
    parse_digits, push_decimal};
use crate::host::{process_snapshot, processes_of, system_new_all, system_refresh_all};
use crate::text::{chars_of, lemma_leading_whitespace, lemma_trailing_whitespace,
    trim_bounds, trimmed};
use vstd::prelude::*;

verus! {

/// One running process, as a snapshot of the host's process table shows it.
#[derive(Clone, Debug, PartialEq, Eq)]
pub struct ProcessEntry {
    pub pid: u32,
    /// The process that started it, where the host knows one.
    pub parent: Option<u32>,
    /// The path of the executable image, where the host gives one.
    pub exe: Option<Vec<u8>>,
    /// The command line: the program's name, then its arguments.
    pub cmd: Vec<Vec<u8>>,
    /// When it started, in seconds since the epoch.
    pub start_time: u64,
}

/// A process of the table as a mathematical value.
pub struct ProcessView {
    pub pid: u32,
    pub parent: Option<u32>,
    pub exe: Option<Seq<u8>>,
    pub cmd: Seq<Seq<u8>>,
    pub start_time: u64,
}

impl View for ProcessEntry {
    type V = ProcessView;

    open spec fn view(&self) -> ProcessView {
        ProcessView {
            pid: self.pid,
            parent: self.parent,
            exe: match self.exe {
                Some(path) => Some(path@),
                None => None,
            },
            cmd: Seq::new(self.cmd@.len(), |i: int| self.cmd@[i]@),
            start_time: self.start_time,
        }
    }
}

/// A process table as a mathematical value.
pub open spec fn table_of(entries: Seq<ProcessEntry>) -> Seq<ProcessView> {
    Seq::new(entries.len(), |i: int| entries[i]@)
}

/// What a starting agent does about ownership.
#[derive(Clone, Copy, Debug, PartialEq, Eq, Structural)]
pub enum Verdict {
    /// There is no record and an older agent runs: record that agent as the
    /// owner and leave.
    Defer { owner: u32 },
    /// There is no record and no other agent runs: record oneself and run.
    Claim,
    /// The record cannot be read: delete it and leave with a failure.
    Corrupt,
    /// The recorded owner runs: leave, and change nothing.
    Redundant { owner: u32 },
    /// The recorded owner runs no more: record oneself and run.
    TakeOver { stale: u32 },
}

/// What becomes of the ownership record.
#[derive(Clone, Copy, Debug, PartialEq, Eq, Structural)]
pub enum RecordAction {
    Keep,
    Write { owner: u32 },
    Delete,
}

/// The text of the word `agent`, the invocation mode of a sampling agent.
pub open spec fn agent_mode() -> Seq<u8> {
    seq![0x61u8, 0x67u8, 0x65u8, 0x6eu8, 0x74u8]
}

/// The process identifier that the text of a record stands for: white space
/// at both ends is ignored; between them stand an optional `+` and one or
/// more decimal digits, whose value fits in 32 bits. Any other text stands
/// for none.
pub open spec fn record_value(content: Seq<char>) -> Option<u32> {
    let t = trimmed(content);
    let digits = if t.len() > 0 && t[0] == '+' {
        t.drop_first()
    } else {
        t
    };
    if digits.len() > 0 && all_digits(digits) && digits_value(digits) <= u32::MAX {
        Some(digits_value(digits) as u32)
    } else {
        None
    }
}

/// The text of the record that names `pid` as the owner: its decimal digits
/// and a line feed.
pub open spec fn record_text_of(pid: u32) -> Seq<char> {
    decimal_text(pid as nat).push('\n')
}

/// Whether the first argument of `p` is the agent mode.
pub open spec fn in_agent_mode(p: ProcessView) -> bool {
    p.cmd.len() > 1 && p.cmd[1] == agent_mode()
}

/// Whether `p` runs the executable image at `image`: the host gives the
/// path of its image, and the two paths are the same bytes.
pub open spec fn runs_image(p: ProcessView, image: Seq<u8>) -> bool {
    p.exe == Some(image)
}

/// Whether the table shows a running process `pid`.
pub open spec fn is_running(table: Seq<ProcessView>, pid: u32) -> bool {
    exists|k: int| 0 <= k < table.len() && #[trigger] table[k].pid == pid
}

/// Whether the table shows `pid` as the process that started `child`.
pub open spec fn is_parent_of(table: Seq<ProcessView>, pid: u32, child: u32) -> bool {
    exists|k: int|
        0 <= k < table.len() && #[trigger] table[k].pid == child && table[k].parent == Some(pid)
}

/// Whether entry `i` of the table is another agent to which the process
/// `current_pid`, run from `image`, may defer: not that process itself, not
/// the process that started it, run from the same image, in agent mode.
pub open spec fn is_candidate(
    table: Seq<ProcessView>,
    i: int,
    current_pid: u32,
    image: Seq<u8>,
) -> bool {
    &&& 0 <= i < table.len()
    &&& table[i].pid != current_pid
    &&& !is_parent_of(table, table[i].pid, current_pid)
    &&& runs_image(table[i], image)
    &&& in_agent_mode(table[i])
}

/// Whether `a` comes before `b` or with it, by start time and then by
/// process identifier.
pub open spec fn precedes(a: ProcessView, b: ProcessView) -> bool {
    a.start_time < b.start_time || (a.start_time == b.start_time && a.pid <= b.pid)
}

/// Whether entry `i` is a candidate that precedes every candidate.
pub open spec fn is_oldest_candidate(
    table: Seq<ProcessView>,
    i: int,
    current_pid: u32,
    image: Seq<u8>,
) -> bool {
    &&& is_candidate(table, i, current_pid, image)
    &&& forall|j: int| #[trigger]
        is_candidate(table, j, current_pid, image) ==> precedes(table[i], table[j])
}

/// Whether `verdict` is what the agent `current_pid`, run from `image`,
/// decides on a record with the given content (none where no record exists)
/// and the given process table.
pub open spec fn guard_decides(
    record: Option<Seq<char>>,
    table: Seq<ProcessView>,
    current_pid: u32,
    image: Seq<u8>,
    verdict: Verdict,
) -> bool {
    match record {
        None => match verdict {
            Verdict::Defer { owner } => exists|i: int| #[trigger]
                is_oldest_candidate(table, i, current_pid, image) && table[i].pid == owner,
            Verdict::Claim => forall|i: int| !#[trigger] is_candidate(table, i, current_pid, image),
            _ => false,
        },
        Some(content) => match record_value(content) {
            None => verdict == Verdict::Corrupt,
            Some(pid) => if is_running(table, pid) {
                verdict == (Verdict::Redundant { owner: pid })
            } else {
                verdict == (Verdict::TakeOver { stale: pid })
            },
        },
    }
}

/// The characters of a record's content; none where no record exists.
pub open spec fn content_of(record: Option<&str>) -> Option<Seq<char>> {
    match record {
        Some(content) => Some(content@),
        None => None,
    }
}

impl Verdict {
    /// The exit status with which the agent leaves; none where it goes on
    /// to run as the owner.
    pub open spec fn spec_exit_code(self) -> Option<u8> {
        match self {
            Verdict::Defer { .. } | Verdict::Redundant { .. } => Some(0u8),
            Verdict::Corrupt => Some(1u8),
            Verdict::Claim | Verdict::TakeOver { .. } => None,
        }
    }

    /// What the agent `current_pid` does to the record.
    pub open spec fn spec_record_action(self, current_pid: u32) -> RecordAction {
        match self {
            Verdict::Defer { owner } => RecordAction::Write { owner },
            Verdict::Claim | Verdict::TakeOver { .. } => RecordAction::Write { owner: current_pid },
            Verdict::Corrupt => RecordAction::Delete,
            Verdict::Redundant { .. } => RecordAction::Keep,
        }
    }

    #[verifier::when_used_as_spec(spec_exit_code)]
    pub fn exit_code(self) -> (code: Option<u8>)
        ensures
            code == self.spec_exit_code(),
    {
        match self {
            Verdict::Defer { .. } | Verdict::Redundant { .. } => Some(0u8),
            Verdict::Corrupt => Some(1u8),
            Verdict::Claim | Verdict::TakeOver { .. } => None,
        }
    }

    #[verifier::when_used_as_spec(spec_record_action)]
    pub fn record_action(self, current_pid: u32) -> (action: RecordAction)
        ensures
            action == self.spec_record_action(current_pid),
    {
        match self {
            Verdict::Defer { owner } => RecordAction::Write { owner },
            Verdict::Claim | Verdict::TakeOver { .. } => RecordAction::Write { owner: current_pid },
            Verdict::Corrupt => RecordAction::Delete,
            Verdict::Redundant { .. } => RecordAction::Keep,
        }
    }
}

/// Reads the text of an ownership record.
pub fn parse_record(content: &str) -> (pid: Option<u32>)
    ensures
        pid == record_value(content@),
{
    let text = chars_of(content);
    let (start, end) = trim_bounds(&text);
    let ghost t = trimmed(content@);
    let from = if start < end && text[start] == '+' {
        start + 1
    } else {
        start
    };
    proof {
        let digits = if t.len() > 0 && t[0] == '+' {
            t.drop_first()
        } else {
            t
        };
        assert(t.len() > 0 ==> t[0] == text@[start as int]);
        assert(text@.subrange(from as int, end as int) =~= digits);
    }
    match parse_digits(&text, from, end, 0xffff_ffff) {
        Some(v) => Some(v as u32),
        None => None,
    }
}

/// Writes the text of the record that names `pid` as the owner.
pub fn record_text(pid: u32) -> (text: String)
    ensures
        text@ == record_text_of(pid),
{
    let mut text = String::new();
    push_decimal(&mut text, pid as u64);
    text.push('\n');
    text
}

/// A record that was written for a process identifier reads as that
/// identifier.
pub proof fn lemma_record_round_trip(pid: u32)
    ensures
        record_value(record_text_of(pid)) == Some(pid),
{
    let digits = decimal_text(pid as nat);
    let s = record_text_of(pid);
    lemma_decimal_text_value(pid as nat);
    assert(is_digit(digits[0]) && is_digit(digits.last()));
    assert(s[0] == digits[0]);
    assert(s[s.len() - 2] == digits.last());
    lemma_leading_whitespace(s, 0);
    assert(s.skip(0) =~= s);
    lemma_trailing_whitespace(s, 1);
    assert(trimmed(s) =~= digits);
}

fn is_agent_mode(arg: &Vec<u8>) -> (yes: bool)
    ensures
        yes == (arg@ == agent_mode()),
{
    let yes = arg.len() == 5 && arg[0] == 0x61 && arg[1] == 0x67 && arg[2] == 0x65 && arg[3] == 0x6e
        && arg[4] == 0x74;
    assert(yes ==> arg@ =~= agent_mode());
    yes
}

fn same_bytes(a: &Vec<u8>, b: &Vec<u8>) -> (same: bool)
    ensures
        same == (a@ == b@),
{
    if a.len() != b.len() {
        return false;
    }
    let mut i: usize = 0;
    while i < a.len()
        invariant
            i <= a.len(),
            a.len() == b.len(),
            forall|j: int| 0 <= j < i ==> a@[j] == b@[j],
        decreases a.len() - i,
    {
        if a[i] != b[i] {
            return false;
        }
        i += 1;
    }
    assert(a@ =~= b@);
    true
}

/// Whether the table shows a running process `pid`.
pub fn process_runs(table: &Vec<ProcessEntry>, pid: u32) -> (yes: bool)
    ensures
        yes == is_running(table_of(table@), pid),
{
    let ghost view = table_of(table@);
    let mut k: usize = 0;
    while k < table.len()
        invariant
            k <= table.len(),
            view == table_of(table@),
            forall|j: int| 0 <= j < k ==> (#[trigger] view[j]).pid != pid,
        decreases table.len() - k,
    {
        assert(view[k as int] == table@[k as int]@);
        if table[k].pid == pid {
            assert(view[k as int].pid == pid);
            return true;
        }
        k += 1;
    }
    false
}

fn started_by(table: &Vec<ProcessEntry>, pid: u32, child: u32) -> (yes: bool)
    ensures
        yes == is_parent_of(table_of(table@), pid, child),
{
    let ghost view = table_of(table@);
    let mut k: usize = 0;
    while k < table.len()
        invariant
            k <= table.len(),
            view == table_of(table@),
            forall|j: int|
                0 <= j < k ==> !((#[trigger] view[j]).pid == child && view[j].parent == Some(pid)),
        decreases table.len() - k,
    {
        assert(view[k as int] == table@[k as int]@);
        if table[k].pid == child {
            match table[k].parent {
                Some(p) => {
                    if p == pid {
                        assert(view[k as int].pid == child && view[k as int].parent == Some(pid));
                        return true;
                    }
                },
                None => {},
            }
        }
        k += 1;
    }
    false
}

fn candidate_at(table: &Vec<ProcessEntry>, i: usize, current_pid: u32, image: &Vec<u8>) -> (yes:
    bool)
    requires
        i < table.len(),
    ensures
        yes == is_candidate(table_of(table@), i as int, current_pid, image@),
{
    let p = &table[i];
    assert(table_of(table@)[i as int] == p@);
    if p.pid == current_pid {
        return false;
    }
    let runs = match &p.exe {
        Some(path) => same_bytes(path, image),
        None => false,
    };
    if !runs {
        return false;
    }
    if !(p.cmd.len() > 1 && is_agent_mode(&p.cmd[1])) {
        return false;
    }
    !started_by(table, p.pid, current_pid)
}

/// The agent to which the process `current_pid`, run from `image`, defers:
/// among the candidates of the table the one that started first, and among
/// those that started together the one with the least identifier.
pub fn oldest_candidate(table: &Vec<ProcessEntry>, current_pid: u32, image: &Vec<u8>) -> (owner:
    Option<u32>)
    ensures
        match owner {
            Some(pid) => exists|i: int| #[trigger]
                is_oldest_candidate(table_of(table@), i, current_pid, image@) && table_of(
                    table@,
                )[i].pid == pid,
            None => forall|i: int| !#[trigger]
                is_candidate(table_of(table@), i, current_pid, image@),
        },
{
    let ghost view = table_of(table@);
    let mut best: Option<usize> = None;
    let mut i: usize = 0;
    while i < table.len()
        invariant
            i <= table.len(),
            view == table_of(table@),
            match best {
                Some(b) => b < i && is_candidate(view, b as int, current_pid, image@)
                    && forall|j: int|
                    0 <= j < i && #[trigger] is_candidate(view, j, current_pid, image@)
                        ==> precedes(view[b as int], view[j]),
                None => forall|j: int|
                    0 <= j < i ==> !#[trigger] is_candidate(view, j, current_pid, image@),
            },
        decreases table.len() - i,
    {
        if candidate_at(table, i, current_pid, image) {
            assert(view[i as int] == table@[i as int]@);
            let better = match best {
                Some(b) => {
                    assert(view[b as int] == table@[b as int]@);
                    table[i].start_time < table[b].start_time || (table[i].start_time
                        == table[b].start_time && table[i].pid < table[b].pid)
                },
                None => true,
            };
            if better {
                best = Some(i);
            }
        }
        i += 1;
    }
    match best {
        Some(b) => {
            assert(is_oldest_candidate(view, b as int, current_pid, image@));
            assert(view[b as int] == table@[b as int]@);
            Some(table[b].pid)
        },
        None => None,
    }
}

/// Decides on ownership from the content of the record (none where no
/// record exists) and a snapshot of the process table.
pub fn decide_ownership(
    record: Option<&str>,
    table: &Vec<ProcessEntry>,
    current_pid: u32,
    image: &Vec<u8>,
) -> (verdict: Verdict)
    ensures
        guard_decides(content_of(record), table_of(table@), current_pid, image@, verdict),
{
    match record {
        None => match oldest_candidate(table, current_pid, image) {
            Some(owner) => Verdict::Defer { owner },
            None => Verdict::Claim,
        },
        Some(content) => match parse_record(content) {
            None => Verdict::Corrupt,
            Some(pid) => if process_runs(table, pid) {
                Verdict::Redundant { owner: pid }
            } else {
                Verdict::TakeOver { stale: pid }
            },
        },
    }
}

/// Whether `table` lists the processes that `system` holds, each once, in
/// some order.
pub open spec fn lists_processes(table: Seq<ProcessView>, system: sysinfo::System) -> bool {
    table.to_multiset() == processes_of(system)
}

/// Decides on ownership from the content of the record (none where no
/// record exists) and the processes that `system` holds: the verdict is the
/// one that `decide_ownership` gives on them, in whatever order they are
/// listed.
pub fn check_processes_of(
    system: &sysinfo::System,
    record: Option<&str>,
    image: &Vec<u8>,
    current_pid: u32,
) -> (verdict: Verdict)
    ensures
        exists|table: Seq<ProcessView>| lists_processes(table, *system),
        forall|table: Seq<ProcessView>| #[trigger]
            lists_processes(table, *system) ==> guard_decides(
                content_of(record),
                table,
                current_pid,
                image@,
                verdict,
            ),
{
    let snapshot = process_snapshot(system);
    let verdict = decide_ownership(record, &snapshot, current_pid, image);
    assert(lists_processes(table_of(snapshot@), *system));
    assert forall|table: Seq<ProcessView>| #[trigger]
        lists_processes(table, *system) implies guard_decides(
        content_of(record),
        table,
        current_pid,
        image@,
        verdict,
    ) by {
        lemma_verdict_ignores_order(
            content_of(record),
            table_of(snapshot@),
            table,
            current_pid,
            image@,
            verdict,
        );
    }
    verdict
}

/// Decides on ownership from the content of the record (none where no
/// record exists) and the processes that run on this host now. The verdict
/// is the one that `decide_ownership` gives on the table that the host
/// reported, whatever that table was.
pub fn check_running_process(record: Option<&str>, image: &Vec<u8>, current_pid: u32) -> (verdict:
    Verdict)
    ensures
        exists|table: Seq<ProcessView>| #[trigger]
            guard_decides(content_of(record), table, current_pid, image@, verdict),
{
    let mut system = system_new_all();
    system_refresh_all(&mut system);
    let verdict = check_processes_of(&system, record, image, current_pid);
    proof {
        let table = choose|table: Seq<ProcessView>| lists_processes(table, system);
        assert(lists_processes(table, system));
        assert(guard_decides(content_of(record), table, current_pid, image@, verdict));
    }
    verdict
}

/// A process that one of two tables lists is listed in the other, where the
/// two list the same processes.
proof fn lemma_listed_in_both(a: Seq<ProcessView>, b: Seq<ProcessView>, i: int) -> (j: int)
    requires
        a.to_multiset() == b.to_multiset(),
        0 <= i < a.len(),
    ensures
        0 <= j < b.len(),
        b[j] == a[i],
{
    broadcast use vstd::seq_lib::group_to_multiset_ensures;

    a.to_multiset_ensures();
    b.to_multiset_ensures();
    assert(a.contains(a[i]));
    assert(a.to_multiset().count(a[i]) > 0);
    assert(b.contains(a[i]));
    choose|j: int| 0 <= j < b.len() && b[j] == a[i]
}

proof fn lemma_running_ignores_order(a: Seq<ProcessView>, b: Seq<ProcessView>, pid: u32)
    requires
        a.to_multiset() == b.to_multiset(),
        is_running(a, pid),
    ensures
        is_running(b, pid),
{
    let k = choose|k: int| 0 <= k < a.len() && #[trigger] a[k].pid == pid;
    let j = lemma_listed_in_both(a, b, k);
    assert(b[j].pid == pid);
}

proof fn lemma_parent_ignores_order(
    a: Seq<ProcessView>,
    b: Seq<ProcessView>,
    pid: u32,
    child: u32,
)
    requires
        a.to_multiset() == b.to_multiset(),
        is_parent_of(a, pid, child),
    ensures
        is_parent_of(b, pid, child),
{
    let k = choose|k: int|
        0 <= k < a.len() && #[trigger] a[k].pid == child && a[k].parent == Some(pid);
    let j = lemma_listed_in_both(a, b, k);
    assert(b[j].pid == child && b[j].parent == Some(pid));
}

proof fn lemma_candidate_ignores_order(
    a: Seq<ProcessView>,
    b: Seq<ProcessView>,
    i: int,
    current_pid: u32,
    image: Seq<u8>,
) -> (j: int)
    requires
        a.to_multiset() == b.to_multiset(),
        is_candidate(a, i, current_pid, image),
    ensures
        is_candidate(b, j, current_pid, image),
        b[j] == a[i],
{
    let j = lemma_listed_in_both(a, b, i);
    if is_parent_of(b, b[j].pid, current_pid) {
        lemma_parent_ignores_order(b, a, b[j].pid, current_pid);
    }
    j
}

proof fn lemma_oldest_ignores_order(
    a: Seq<ProcessView>,
    b: Seq<ProcessView>,
    i: int,
    current_pid: u32,
    image: Seq<u8>,
) -> (j: int)
    requires
        a.to_multiset() == b.to_multiset(),
        is_oldest_candidate(a, i, current_pid, image),
    ensures
        is_oldest_candidate(b, j, current_pid, image),
        b[j] == a[i],
{
    let j = lemma_candidate_ignores_order(a, b, i, current_pid, image);
    assert forall|k: int| #[trigger] is_candidate(b, k, current_pid, image) implies precedes(
        b[j],
        b[k],
    ) by {
        let m = lemma_candidate_ignores_order(b, a, k, current_pid, image);
        assert(is_candidate(a, m, current_pid, image));
        assert(precedes(a[i], a[m]));
    }
    j
}

/// The verdict does not depend on the order in which the table lists the
/// processes.
pub proof fn lemma_verdict_ignores_order(
    record: Option<Seq<char>>,
    a: Seq<ProcessView>,
    b: Seq<ProcessView>,
    current_pid: u32,
    image: Seq<u8>,
    verdict: Verdict,
)
    requires
        a.to_multiset() == b.to_multiset(),
        guard_decides(record, a, current_pid, image, verdict),
    ensures
        guard_decides(record, b, current_pid, image, verdict),
{
    match record {
        None => match verdict {
            Verdict::Defer { owner } => {
                let i = choose|i: int| #[trigger]
                    is_oldest_candidate(a, i, current_pid, image) && a[i].pid == owner;
                let j = lemma_oldest_ignores_order(a, b, i, current_pid, image);
                assert(is_oldest_candidate(b, j, current_pid, image) && b[j].pid == owner);
            },
            Verdict::Claim => {
                assert forall|k: int| !#[trigger] is_candidate(b, k, current_pid, image) by {
                    if is_candidate(b, k, current_pid, image) {
                        let m = lemma_candidate_ignores_order(b, a, k, current_pid, image);
                        assert(is_candidate(a, m, current_pid, image));
                    }
                }
            },
            _ => {},
        },
        Some(content) => match record_value(content) {
            None => {},
            Some(pid) => {
                if is_running(a, pid) {
                    lemma_running_ignores_order(a, b, pid);
                }
                if is_running(b, pid) {
                    lemma_running_ignores_order(b, a, pid);
                }
            },
        },
    }
}

/// The verdict names one owner: two candidates that each precede every
/// candidate are the same process.
pub proof fn lemma_oldest_candidate_is_unique(
    table: Seq<ProcessView>,
    i: int,
    j: int,
    current_pid: u32,
    image: Seq<u8>,
)
    requires
        is_oldest_candidate(table, i, current_pid, image),
        is_oldest_candidate(table, j, current_pid, image),
    ensures
        table[i].pid == table[j].pid,
        table[i].start_time == table[j].start_time,
{
    assert(precedes(table[i], table[j]));
    assert(precedes(table[j], table[i]));
}

/// Of two candidates, the one that started later is not the one to which
/// an agent defers.
pub proof fn lemma_earlier_start_wins(
    table: Seq<ProcessView>,
    earlier: int,
    later: int,
    current_pid: u32,
    image: Seq<u8>,
)
    requires
        is_candidate(table, earlier, current_pid, image),
        is_candidate(table, later, current_pid, image),
        table[earlier].start_time < table[later].start_time,
    ensures
        !is_oldest_candidate(table, later, current_pid, image),
{
    if is_oldest_candidate(table, later, current_pid, image) {
        assert(precedes(table[later], table[earlier]));
    }
}

} // verus!
