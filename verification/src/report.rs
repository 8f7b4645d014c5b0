//! The text report that describes one process.

use vstd::prelude::*;
use vstd::seq_lib::lemma_concat_associative;

verus! {

/// What the report tells of a process, as read from the system: the name,
/// the command-line arguments, the executable's path and the working
/// directory where known, the memory figure, the processor usage and the
/// status as display text, and the full image path where known.
pub struct ProcessInfo {
    pub name: String,
    pub command: Vec<String>,
    pub exe: Option<String>,
    pub cwd: Option<String>,
    pub memory: u64,
    pub cpu_usage: String,
    pub status: String,
    pub image_path: Option<String>,
}

/// The decimal digit for `d`, for `d` below 10.
pub open spec fn digit(d: int) -> char {
    (d + 48) as char
}

/// The decimal representation of `n`, without leading zeros.
pub open spec fn decimal(n: nat) -> Seq<char>
    decreases n,
{
    if n < 10 {
        seq![digit(n as int)]
    } else {
        decimal(n / 10).push(digit((n % 10) as int))
    }
}

/// The number that a string of decimal digits stands for.
pub open spec fn digits_value(s: Seq<char>) -> int
    decreases s.len(),
{
    if s.len() == 0 {
        0
    } else {
        digits_value(s.drop_last()) * 10 + (s.last() as u32 - 48)
    }
}

/// The decimal representation of `n` is a string of digits `0` to `9` that
/// stands for `n`, and it starts with `0` only where `n` is 0.
pub proof fn lemma_decimal_reads_back(n: nat)
    ensures
        decimal(n).len() > 0,
        forall|k: int| 0 <= k < decimal(n).len() ==> '0' <= #[trigger] decimal(n)[k] <= '9',
        digits_value(decimal(n)) == n,
        decimal(n)[0] == '0' ==> n == 0,
    decreases n,
{
    if n >= 10 {
        lemma_decimal_reads_back(n / 10);
        let d = decimal(n);
        let prev = decimal(n / 10);
        assert(d.drop_last() =~= prev);
        assert forall|k: int| 0 <= k < d.len() implies '0' <= #[trigger] d[k] <= '9' by {
            if k < prev.len() {
                assert(d[k] == prev[k]);
            }
        }
        assert(d[0] == prev[0]);
        let r = (n % 10) as int;
        assert(d.last() == digit(r));
        assert(digit(r) as u32 == r + 48);
        assert(n == (n / 10) * 10 + r);
        assert(digits_value(d) == digits_value(prev) * 10 + (d.last() as u32 - 48));
    } else {
        let d = decimal(n);
        assert(d.drop_last() =~= Seq::<char>::empty());
        assert(digit(n as int) as u32 == n + 48);
        assert(digits_value(d) == digits_value(d.drop_last()) * 10 + (d.last() as u32 - 48));
    }
}

/// `parts` written one after the other with `sep` between neighbours.
pub open spec fn joined(parts: Seq<Seq<char>>, sep: Seq<char>) -> Seq<char>
    decreases parts.len(),
{
    if parts.len() == 0 {
        Seq::empty()
    } else if parts.len() == 1 {
        parts[0]
    } else {
        joined(parts.drop_last(), sep) + sep + parts.last()
    }
}

/// Joining no parts gives nothing, one part gives that part, and joining a
/// part in front of at least one more gives that part, the separator and the
/// rest joined.
pub proof fn lemma_joined_front(x: Seq<char>, rest: Seq<Seq<char>>, sep: Seq<char>)
    ensures
        joined(Seq::<Seq<char>>::empty(), sep) == Seq::<char>::empty(),
        joined(seq![x], sep) == x,
        rest.len() > 0 ==> joined(seq![x] + rest, sep) == x + sep + joined(rest, sep),
    decreases rest.len(),
{
    if rest.len() > 1 {
        let d = rest.drop_last();
        lemma_joined_front(x, d, sep);
        assert((seq![x] + rest).drop_last() =~= seq![x] + d);
        assert((seq![x] + rest).last() == rest.last());
        assert(x + sep + joined(d, sep) + sep + rest.last() =~= x + sep + (joined(d, sep) + sep + rest.last()));
    } else if rest.len() == 1 {
        assert((seq![x] + rest).drop_last() =~= seq![x]);
        assert((seq![x] + rest).last() == rest[0]);
    }
}

/// The text of a known value, or `Unknown`.
pub open spec fn or_unknown(v: Option<String>) -> Seq<char> {
    match v {
        Some(s) => s@,
        None => "Unknown"@,
    }
}

/// The report on a process that was found: one line per item, each ended by
/// a line feed; the full image path line only where that path is known.
pub open spec fn report_text(info: ProcessInfo) -> Seq<char> {
    "Name: "@ + info.name@ + "\n"@
        + "Command: "@ + joined(info.command@.map_values(|s: String| s@), " "@) + "\n"@
        + "Executable Path: "@ + or_unknown(info.exe) + "\n"@
        + "Current Working Directory: "@ + or_unknown(info.cwd) + "\n"@
        + "Memory Usage: "@ + decimal(info.memory as nat) + " KB\n"@
        + "CPU Usage: "@ + info.cpu_usage@ + "%\n"@
        + "Status: "@ + info.status@ + "\n"@
        + match info.image_path {
            Some(p) => "Full Image Path: "@ + p@ + "\n"@,
            None => Seq::empty(),
        }
}

/// `text` holds `line` somewhere: some text before it and some after.
pub open spec fn shows(text: Seq<char>, line: Seq<char>) -> bool {
    exists|pre: Seq<char>, post: Seq<char>| text == pre + line + post
}

/// The report on a found process starts with its name line and ends with a
/// line feed, and shows one line for each item: the name; the arguments
/// with a space between neighbours; the executable path and the working
/// directory, each as given where known and `Unknown` where not; the memory
/// figure in decimal with ` KB`; the processor usage with `%`; the status;
/// and the full image path where it is known.
pub proof fn lemma_report_lines(info: ProcessInfo)
    ensures
        exists|post: Seq<char>| report_text(info) == "Name: "@ + info.name@ + "\n"@ + post,
        report_text(info).last() == '\n',
        shows(report_text(info), "Command: "@ + joined(info.command@.map_values(|s: String| s@), " "@) + "\n"@),
        info.exe matches Some(e) ==> shows(report_text(info), "Executable Path: "@ + e@ + "\n"@),
        info.exe is None ==> shows(report_text(info), "Executable Path: Unknown\n"@),
        info.cwd matches Some(d) ==> shows(report_text(info), "Current Working Directory: "@ + d@ + "\n"@),
        info.cwd is None ==> shows(report_text(info), "Current Working Directory: Unknown\n"@),
        shows(report_text(info), "Memory Usage: "@ + decimal(info.memory as nat) + " KB\n"@),
        shows(report_text(info), "CPU Usage: "@ + info.cpu_usage@ + "%\n"@),
        shows(report_text(info), "Status: "@ + info.status@ + "\n"@),
        info.image_path matches Some(p) ==> shows(report_text(info), "Full Image Path: "@ + p@ + "\n"@),
{
    let lines = report_lines(info);
    let text = report_text(info);
    lemma_report_is_lines(info);
    lemma_line_shown(lines, 1);
    lemma_line_shown(lines, 2);
    lemma_line_shown(lines, 3);
    lemma_line_shown(lines, 4);
    lemma_line_shown(lines, 5);
    lemma_line_shown(lines, 6);
    lemma_line_shown(lines, 7);
    lemma_concat_split(lines, 0);
    assert(lines.take(0) =~= Seq::<Seq<char>>::empty());
    assert(concat_lines(lines.take(0)) + lines[0] =~= lines[0]);
    reveal_strlit("\n");
    reveal_strlit("Executable Path: ");
    reveal_strlit("Executable Path: Unknown\n");
    reveal_strlit("Current Working Directory: ");
    reveal_strlit("Current Working Directory: Unknown\n");
    reveal_strlit("Unknown");
    assert(text.last() == '\n') by {
        lemma_concat_lines_last(lines);
        match info.image_path {
            Some(p) => {
                assert(lines[7].last() == '\n');
            },
            None => {
                assert(lines[6].last() == '\n');
                assert(lines[7].len() == 0);
            },
        }
    }
    if info.exe is None {
        assert(lines[2] =~= "Executable Path: Unknown\n"@);
    }
    if info.cwd is None {
        assert(lines[3] =~= "Current Working Directory: Unknown\n"@);
    }
}

/// The lines of the report on a found process, in order; the last is empty
/// where the full image path is not known.
spec fn report_lines(info: ProcessInfo) -> Seq<Seq<char>> {
    seq![
        "Name: "@ + info.name@ + "\n"@,
        "Command: "@ + joined(info.command@.map_values(|s: String| s@), " "@) + "\n"@,
        "Executable Path: "@ + or_unknown(info.exe) + "\n"@,
        "Current Working Directory: "@ + or_unknown(info.cwd) + "\n"@,
        "Memory Usage: "@ + decimal(info.memory as nat) + " KB\n"@,
        "CPU Usage: "@ + info.cpu_usage@ + "%\n"@,
        "Status: "@ + info.status@ + "\n"@,
        match info.image_path {
            Some(p) => "Full Image Path: "@ + p@ + "\n"@,
            None => Seq::empty(),
        },
    ]
}

/// The report on a found process is its lines, one after the other.
#[verifier::rlimit(40)]
proof fn lemma_report_is_lines(info: ProcessInfo)
    ensures
        report_text(info) == concat_lines(report_lines(info)),
{
    reveal_with_fuel(concat_lines, 9);
    assert(report_text(info) =~= concat_lines(report_lines(info)));
}

/// Each of the lines shows in all of them written one after the other.
proof fn lemma_line_shown(lines: Seq<Seq<char>>, k: int)
    requires
        0 <= k < lines.len(),
    ensures
        shows(concat_lines(lines), lines[k]),
{
    lemma_concat_split(lines, k);
    let pre = concat_lines(lines.take(k));
    let post = concat_lines(lines.skip(k + 1));
    assert(concat_lines(lines) == pre + lines[k] + post);
}

/// `lines` written one after the other.
spec fn concat_lines(lines: Seq<Seq<char>>) -> Seq<char>
    decreases lines.len(),
{
    if lines.len() == 0 {
        Seq::empty()
    } else {
        concat_lines(lines.drop_last()) + lines.last()
    }
}

/// The lines before line `k`, line `k`, and the lines after it, written one
/// after the other, give all the lines.
proof fn lemma_concat_split(lines: Seq<Seq<char>>, k: int)
    requires
        0 <= k < lines.len(),
    ensures
        concat_lines(lines) == concat_lines(lines.take(k)) + lines[k] + concat_lines(lines.skip(k + 1)),
    decreases lines.len(),
{
    if k == lines.len() - 1 {
        assert(lines.take(k) =~= lines.drop_last());
        assert(lines.skip(k + 1) =~= Seq::<Seq<char>>::empty());
        assert(concat_lines(lines.take(k)) + lines[k] + Seq::<char>::empty() =~= concat_lines(lines.take(k)) + lines[k]);
    } else {
        let d = lines.drop_last();
        lemma_concat_split(d, k);
        assert(d.take(k) =~= lines.take(k));
        assert(lines.skip(k + 1).drop_last() =~= d.skip(k + 1));
        assert(lines.skip(k + 1).last() == lines.last());
        let a = concat_lines(lines.take(k)) + lines[k];
        lemma_concat_associative(a, concat_lines(d.skip(k + 1)), lines.last());
    }
}

/// Where the last line ends with a line feed, so do all the lines together;
/// an empty last line passes that on to the line before.
proof fn lemma_concat_lines_last(lines: Seq<Seq<char>>)
    requires
        lines.len() > 0,
    ensures
        lines.last().len() > 0 ==> concat_lines(lines).last() == lines.last().last(),
        lines.last().len() == 0 && lines.len() > 1 && lines[lines.len() - 2].len() > 0 ==>
            concat_lines(lines).last() == lines[lines.len() - 2].last(),
{
    if lines.last().len() == 0 && lines.len() > 1 && lines[lines.len() - 2].len() > 0 {
        let d = lines.drop_last();
        assert(concat_lines(lines) =~= concat_lines(d));
        assert(d.last() == lines[lines.len() - 2]);
    }
}

/// The text for a single decimal digit.
fn digit_text(d: u64) -> (t: &'static str)
    requires
        d < 10,
    ensures
        t@ == seq![digit(d as int)],
{
    proof {
        reveal_strlit("0");
        reveal_strlit("1");
        reveal_strlit("2");
        reveal_strlit("3");
        reveal_strlit("4");
        reveal_strlit("5");
        reveal_strlit("6");
        reveal_strlit("7");
        reveal_strlit("8");
        reveal_strlit("9");
    }
    match d {
        0 => "0",
        1 => "1",
        2 => "2",
        3 => "3",
        4 => "4",
        5 => "5",
        6 => "6",
        7 => "7",
        8 => "8",
        _ => "9",
    }
}

/// Appends the decimal representation of `n` to `out`.
fn append_decimal(out: &mut String, n: u64)
    ensures
        final(out)@ == old(out)@ + decimal(n as nat),
    decreases n,
{
    if n >= 10 {
        append_decimal(out, n / 10);
    }
    out.append(digit_text(n % 10));
    proof {
        if n >= 10 {
            assert(decimal(n as nat) == decimal((n / 10) as nat).push(digit((n % 10) as int)));
        }
    }
}

/// The decimal representation of `n`.
pub fn decimal_text(n: u64) -> (t: String)
    ensures
        t@ == decimal(n as nat),
{
    let mut t = String::new();
    append_decimal(&mut t, n);
    t
}

/// The arguments written one after the other with `sep` between neighbours.
pub fn join_texts(parts: &Vec<String>, sep: &str) -> (t: String)
    ensures
        t@ == joined(parts@.map_values(|s: String| s@), sep@),
{
    let ghost views = parts@.map_values(|s: String| s@);
    let mut t = String::new();
    let mut i: usize = 0;
    while i < parts.len()
        invariant
            i <= parts.len(),
            views == parts@.map_values(|s: String| s@),
            t@ == joined(views.subrange(0, i as int), sep@),
        decreases parts.len() - i,
    {
        if i > 0 {
            t.append(sep);
        }
        t.append(parts[i].as_str());
        proof {
            assert(views.subrange(0, i + 1).drop_last() =~= views.subrange(0, i as int));
            if i == 0 {
                assert(views.subrange(0, 0) =~= Seq::<Seq<char>>::empty());
            }
        }
        i = i + 1;
    }
    assert(views.subrange(0, parts.len() as int) =~= views);
    t
}

/// Appends a known value, or `Unknown`.
fn append_known(out: &mut String, v: &Option<String>)
    ensures
        final(out)@ == old(out)@ + or_unknown(*v),
{
    match v {
        Some(s) => out.append(s.as_str()),
        None => out.append("Unknown"),
    }
}

/// The report on a process: the lines of [`report_text`] where the process
/// was found, `Process not found` where it was not.
pub fn describe_process(info: &Option<ProcessInfo>) -> (text: String)
    ensures
        text@ == match *info {
            Some(i) => report_text(i),
            None => "Process not found"@,
        },
{
    match info {
        None => String::from_str("Process not found"),
        Some(i) => {
            let mut t = String::new();
            t.append("Name: ");
            t.append(i.name.as_str());
            t.append("\n");
            t.append("Command: ");
            let cmd = join_texts(&i.command, " ");
            t.append(cmd.as_str());
            t.append("\n");
            t.append("Executable Path: ");
            append_known(&mut t, &i.exe);
            t.append("\n");
            t.append("Current Working Directory: ");
            append_known(&mut t, &i.cwd);
            t.append("\n");
            t.append("Memory Usage: ");
            append_decimal(&mut t, i.memory);
            t.append(" KB\n");
            t.append("CPU Usage: ");
            t.append(i.cpu_usage.as_str());
            t.append("%\n");
            t.append("Status: ");
            t.append(i.status.as_str());
            t.append("\n");
            match &i.image_path {
                Some(p) => {
                    t.append("Full Image Path: ");
                    t.append(p.as_str());
                    t.append("\n");
                },
                None => {},
            }
            assert(t@ =~= report_text(*i));
            t
        },
    }
}

} // verus!
