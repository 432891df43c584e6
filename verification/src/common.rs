//! What the components share: the configuration and its defaults, the
//! error line, the names of log segments, and the file-write requests.
use crate::text::{chars_of, concat, owned, push_char};
use crate::triggers::{decimal, decimal_spec};
use vstd::prelude::*;

verus! {

/// Where units, the persisted state and the fallback list of enabled units are.
pub struct UnitsConfig {
    pub path: String,
    pub state: String,
    pub fallback: String,
}

/// The shell and the terminal it runs on.
pub struct ShellConfig {
    pub executable: String,
    pub tty: String,
}

/// Where the logger listens and writes, and how it batches.
pub struct LoggerConfig {
    pub socket_path: String,
    pub log_path: String,
    pub channel_capacity: usize,
    pub flush_interval: u64,
    pub fsync_interval: u64,
    pub max_segment_size: u64,
    pub batch_size: usize,
}

/// The configuration of the init system.
pub struct InitConfig {
    pub units: UnitsConfig,
    pub shell: ShellConfig,
    pub logger: LoggerConfig,
}

impl Default for InitConfig {
    /// Units in `/etc/units`, state in `/etc/state`, fallback in
    /// `/etc/fallback.toml`; `/bin/sh` on `/dev/tty1`; the logger on
    /// `/run/rind-logger.sock` writing to `/var/log/rind/`, with a channel of
    /// 4096, a flush every 1 ms, a sync every 2 s, segments of 32 MiB and
    /// batches of 256.
    fn default() -> (r: Self)
        ensures
            r.units.path@ == "/etc/units"@,
            r.units.state@ == "/etc/state"@,
            r.units.fallback@ == "/etc/fallback.toml"@,
            r.shell.executable@ == "/bin/sh"@,
            r.shell.tty@ == "/dev/tty1"@,
            r.logger.socket_path@ == "/run/rind-logger.sock"@,
            r.logger.log_path@ == "/var/log/rind/"@,
            r.logger.channel_capacity == 4096,
            r.logger.flush_interval == 1,
            r.logger.fsync_interval == 2,
            r.logger.max_segment_size == 32 * 1024 * 1024,
            r.logger.batch_size == 256,
    {
        InitConfig {
            units: UnitsConfig { path: owned("/etc/units"), state: owned("/etc/state"), fallback: owned("/etc/fallback.toml") },
            shell: ShellConfig { executable: owned("/bin/sh"), tty: owned("/dev/tty1") },
            logger: LoggerConfig {
                socket_path: owned("/run/rind-logger.sock"),
                log_path: owned("/var/log/rind/"),
                channel_capacity: 4096,
                flush_interval: 1,
                max_segment_size: 32 * 1024 * 1024,
                batch_size: 256,
                fsync_interval: 2,
            },
        }
    }
}

/// The line that reports an error: `[rind:error] <context>: <error>`.
pub fn report_error(context: &str, err: &str) -> (r: String)
    ensures
        r@ == "[rind:error] "@ + context@ + ": "@ + err@,
{
    let a = concat("[rind:error] ", context);
    let b = concat(a.as_str(), ": ");
    concat(b.as_str(), err)
}

/// How a queued write opens its file.
#[derive(Clone, Copy, PartialEq, Eq, Structural, Debug)]
pub enum FileWriteMode {
    Truncate,
    Append,
}

/// A write for the file writer: the bytes to write to `path`, how, and the
/// permissions a new file gets.
pub struct FileWriteRequest {
    pub path: String,
    pub bytes: Vec<u8>,
    pub mode: FileWriteMode,
    pub perms: Option<u32>,
}

/// Whether `c` is an ASCII digit.
pub open spec fn is_digit(c: char) -> bool {
    '0' <= c && c <= '9'
}

/// The value of a run of decimal digits.
pub open spec fn digits_value(s: Seq<char>) -> nat
    decreases s.len(),
{
    if s.len() == 0 {
        0
    } else {
        digits_value(s.drop_last()) * 10 + ((s.last() as int) - ('0' as int)) as nat
    }
}

/// The digits after an optional leading `+`.
pub open spec fn unsigned_digits(s: Seq<char>) -> Seq<char> {
    if s.len() > 0 && s[0] == '+' {
        s.drop_first()
    } else {
        s
    }
}

/// What `u64::from_str` gives: an optional `+`, then at least one digit and
/// nothing else, for a value that fits.
pub open spec fn parse_u64_spec(s: Seq<char>) -> Option<u64> {
    let t = unsigned_digits(s);
    if t.len() > 0 && (forall|i: int| 0 <= i < t.len() ==> is_digit(#[trigger] t[i])) && digits_value(t) <= u64::MAX {
        Some(digits_value(t) as u64)
    } else {
        None
    }
}

proof fn lemma_digits_grow(s: Seq<char>, k: int)
    requires
        0 <= k <= s.len(),
        forall|i: int| 0 <= i < s.len() ==> is_digit(#[trigger] s[i]),
    ensures
        digits_value(s.subrange(0, k)) <= digits_value(s),
    decreases s.len() - k,
{
    if k < s.len() {
        lemma_digits_grow(s, k + 1);
        assert(s.subrange(0, k + 1).drop_last() =~= s.subrange(0, k));
        assert(is_digit(s[k]));
    } else {
        assert(s.subrange(0, k) =~= s);
    }
}

/// `u64::from_str` (see `parse_u64_spec`).
pub fn parse_u64(s: &str) -> (r: Option<u64>)
    ensures
        r == parse_u64_spec(s@),
{
    let v = chars_of(s);
    let n = v.len();
    let start: usize = if n > 0 && v[0] == '+' {
        1
    } else {
        0
    };
    let ghost t = unsigned_digits(s@);
    assert(t =~= v@.subrange(start as int, n as int));
    if start >= n {
        return None;
    }
    let mut value: u64 = 0;
    let mut i: usize = start;
    while i < n
        invariant
            start <= i <= n,
            n == v@.len(),
            v@ == s@,
            t == v@.subrange(start as int, n as int),
            t == unsigned_digits(s@),
            forall|j: int| 0 <= j < i - start ==> is_digit(#[trigger] t[j]),
            value == digits_value(t.subrange(0, i - start)),
        decreases n - i,
    {
        let c = v[i];
        assert(t[i - start] == c);
        if !('0' <= c && c <= '9') {
            assert(!is_digit(t[i - start]));
            return None;
        }
        let d: u64 = (c as u64) - ('0' as u64);
        assert(t.subrange(0, i - start + 1).drop_last() =~= t.subrange(0, i - start));
        assert(digits_value(t.subrange(0, i - start + 1)) == value * 10 + d);
        if value > (u64::MAX - d) / 10 {
            proof {
                assert(value * 10 + d > u64::MAX) by (nonlinear_arith)
                    requires
                        value > (u64::MAX - d) / 10,
                        d <= 9,
                ;
                assert forall|j: int| 0 <= j < t.len() implies is_digit(#[trigger] t[j]) || !(forall|q: int|
                    0 <= q < t.len() ==> is_digit(#[trigger] t[q])) by {
                }
                if forall|q: int| 0 <= q < t.len() ==> is_digit(#[trigger] t[q]) {
                    lemma_digits_grow(t, i - start + 1);
                }
            }
            return None;
        }
        assert(value * 10 + d <= u64::MAX) by (nonlinear_arith)
            requires
                value <= (u64::MAX - d) / 10,
                d <= 9,
        ;
        value = value * 10 + d;
        i = i + 1;
    }
    assert(t.subrange(0, n - start) =~= t);
    Some(value)
}

/// The id of the next log segment: one more than the largest of the segment
/// names that are numbers (given without extension), 1 where there is none.
pub open spec fn next_segment_spec(stems: Seq<Seq<char>>) -> int
    decreases stems.len(),
{
    if stems.len() == 0 {
        1
    } else {
        let rest = next_segment_spec(stems.drop_last());
        match parse_u64_spec(stems.last()) {
            Some(x) => if x + 1 > rest {
                x + 1
            } else {
                rest
            },
            None => rest,
        }
    }
}

/// The id of the next log segment (see `next_segment_spec`). The names must
/// not hold `u64::MAX`, whose successor does not fit.
pub fn next_segment_id(stems: &Vec<String>) -> (r: u64)
    requires
        forall|i: int| 0 <= i < stems@.len() ==> parse_u64_spec(#[trigger] stems@[i]@) != Some(u64::MAX),
    ensures
        r == next_segment_spec(stems@.map_values(|s: String| s@)),
{
    let ghost sv = stems@.map_values(|s: String| s@);
    let mut best: u64 = 1;
    let mut i: usize = 0;
    while i < stems.len()
        invariant
            i <= stems@.len(),
            sv == stems@.map_values(|s: String| s@),
            forall|j: int| 0 <= j < stems@.len() ==> parse_u64_spec(#[trigger] stems@[j]@) != Some(u64::MAX),
            best == next_segment_spec(sv.subrange(0, i as int)),
        decreases stems@.len() - i,
    {
        assert(sv.subrange(0, i + 1).drop_last() =~= sv.subrange(0, i as int));
        assert(sv[i as int] == stems@[i as int]@);
        match parse_u64(stems[i].as_str()) {
            Some(x) => {
                if x + 1 > best {
                    best = x + 1;
                }
            },
            None => {},
        }
        i = i + 1;
    }
    assert(sv.subrange(0, stems@.len() as int) =~= sv);
    best
}

/// `n` with zeros in front up to `width` characters.
pub open spec fn zero_pad(s: Seq<char>, width: nat) -> Seq<char> {
    if s.len() >= width {
        s
    } else {
        Seq::new((width - s.len()) as nat, |i: int| '0') + s
    }
}

/// The file name of log segment `id`: the id in at least eight digits, then `.rlog`.
pub fn segment_name(id: u64) -> (r: String)
    ensures
        r@ == zero_pad(decimal_spec(id as nat), 8) + ".rlog"@,
{
    let d = crate::logger::decimal_u64(id);
    let mut out = String::new();
    let n = d.unicode_len();
    let mut k: usize = n;
    while k < 8
        invariant
            n == d@.len(),
            n <= k,
            k <= 8 || k == n,
            out@ == Seq::new((k - n) as nat, |i: int| '0'),
        decreases 8 - k,
    {
        push_char(&mut out, '0');
        k = k + 1;
        assert(out@ =~= Seq::new((k - n) as nat, |i: int| '0'));
    }
    let padded = concat(out.as_str(), d.as_str());
    proof {
        if n >= 8 {
            assert(out@ =~= Seq::<char>::empty());
            assert(padded@ =~= d@);
        } else {
            assert(k == 8);
        }
    }
    concat(padded.as_str(), ".rlog")
}

} // verus!
