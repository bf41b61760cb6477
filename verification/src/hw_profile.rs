//! What is known of the machine, and how much parallelism a problem deserves on it.
use vstd::prelude::*;
use crate::arith;
use crate::models::Problem;

verus! {

/// What is known of the machine. Sizes are in bytes, 0 where they are unknown.
#[derive(Debug, Clone, Copy)]
pub struct MachineProfile {
    pub num_cores: usize,
    /// The number of worker processes.
    pub num_workers: usize,
    pub l2_cache_per_core: usize,
    pub l3_cache_total: usize,
    pub available_ram: u64,
}

/// What follows for a problem on the machine.
#[derive(Debug, Clone, Copy)]
pub struct WorkerProfile {
    pub machine: MachineProfile,
    /// The number of operations of a tile.
    pub tile_size_hint: usize,
    /// The part of fast memory of each worker.
    pub sram_budget_per_zone: i64,
    /// The problem deserves several processes.
    pub use_multiprocess: bool,
    /// The size of the memory that the processes share, in bytes.
    pub shm_segment_size: usize,
}

/// The usual cache of a core.
pub const DEFAULT_L2_CACHE: usize = 262_144;

/// The usual cache of all cores.
pub const DEFAULT_L3_CACHE: usize = 8_388_608;

/// The usual memory of a machine.
pub const DEFAULT_RAM: u64 = 8_589_934_592;

/// The fewest operations that deserve several processes.
pub const MIN_OPS_FOR_MULTIPROCESS: usize = 500;

/// One core is left to the master, if there are more than two.
pub open spec fn workers_for(num_cores: int) -> int {
    if num_cores > 2 {
        num_cores - 1
    } else {
        1
    }
}

impl MachineProfile {
    /// The machine with these caches and this memory.
    pub fn with_sizes(num_cores: usize, l2_cache_per_core: usize, l3_cache_total: usize, available_ram: u64) -> (machine:
        Self)
        ensures
            machine == (MachineProfile {
                num_cores,
                num_workers: workers_for(num_cores as int) as usize,
                l2_cache_per_core,
                l3_cache_total,
                available_ram,
            }),
    {
        let num_workers: usize = if num_cores > 2 {
            num_cores - 1
        } else {
            1
        };
        MachineProfile { num_cores, num_workers, l2_cache_per_core, l3_cache_total, available_ram }
    }

    /// A machine of which only the number of cores is known.
    pub fn with_cores(num_cores: usize) -> (machine: Self)
        ensures
            machine.num_cores == num_cores,
            machine.num_workers == workers_for(num_cores as int),
            machine.l2_cache_per_core == DEFAULT_L2_CACHE,
            machine.l3_cache_total == DEFAULT_L3_CACHE,
            machine.available_ram == DEFAULT_RAM,
    {
        MachineProfile::with_sizes(num_cores, DEFAULT_L2_CACHE, DEFAULT_L3_CACHE, DEFAULT_RAM)
    }
}

/// `x`, but at least `low` and at most `high`.
pub open spec fn bounded(x: int, low: int, high: int) -> int {
    arith::least(arith::greatest(x, low), high)
}

/// A graph of `n` operations deserves several processes on so many workers.
pub open spec fn deserves_processes(n: int, workers: int) -> bool {
    n >= MIN_OPS_FOR_MULTIPROCESS && workers > 1
}

impl WorkerProfile {
    /// What follows for the problem on the machine: large graphs are shared out, two tiles
    /// for each worker, each with an equal part of nine tenths of fast memory.
    pub fn from_problem(machine: &MachineProfile, problem: &Problem) -> (profile: Self)
        requires
            machine.num_workers <= i64::MAX,
        ensures
            profile.machine == *machine,
            profile.use_multiprocess == deserves_processes(
                problem.ops@.len() as int,
                machine.num_workers as int,
            ),
            profile.tile_size_hint == if profile.use_multiprocess {
                bounded(problem.ops@.len() as int / (2 * machine.num_workers), 100, 2000)
            } else {
                problem.ops@.len() as int
            },
            profile.sram_budget_per_zone == arith::quotient(
                arith::share(problem.fast_memory_capacity as int, 90),
                if profile.use_multiprocess { machine.num_workers as int } else { 1 },
            ),
            profile.shm_segment_size == bounded(384 * problem.ops@.len() as int + 4096, 65_536, 67_108_864),
    {
        let num_ops: usize = problem.ops.len();
        let use_multiprocess: bool = num_ops >= MIN_OPS_FOR_MULTIPROCESS && machine.num_workers > 1;
        let tile_size_hint: usize = if use_multiprocess {
            let target: u128 = 2 * machine.num_workers as u128;
            let raw: u128 = num_ops as u128 / target;
            if raw < 100 {
                100
            } else if raw > 2000 {
                2000
            } else {
                raw as usize
            }
        } else {
            num_ops
        };
        let zones: i64 = if use_multiprocess {
            machine.num_workers as i64
        } else {
            1
        };
        let usable: i64 = arith::share_of(problem.fast_memory_capacity, 90);
        let segment: u128 = 384 * num_ops as u128 + 4096;
        let shm_segment_size: usize = if segment < 65_536 {
            65_536
        } else if segment > 67_108_864 {
            67_108_864
        } else {
            segment as usize
        };
        WorkerProfile {
            machine: *machine,
            tile_size_hint,
            sram_budget_per_zone: usable / zones,
            use_multiprocess,
            shm_segment_size,
        }
    }
}

/// The byte is white space.
pub open spec fn is_space(b: u8) -> bool {
    9 <= b <= 13 || b == 32
}

/// The text without white space at its start.
pub open spec fn drop_spaces(s: Seq<u8>) -> Seq<u8>
    decreases s.len(),
{
    if s.len() > 0 && is_space(s[0]) {
        drop_spaces(s.drop_first())
    } else {
        s
    }
}

/// The text without bytes `b` at its end.
pub open spec fn drop_trailing(s: Seq<u8>, b: u8) -> Seq<u8>
    decreases s.len(),
{
    if s.len() > 0 && s.last() == b {
        drop_trailing(s.drop_last(), b)
    } else {
        s
    }
}

/// The text without white space at its end.
pub open spec fn drop_trailing_spaces(s: Seq<u8>) -> Seq<u8>
    decreases s.len(),
{
    if s.len() > 0 && is_space(s.last()) {
        drop_trailing_spaces(s.drop_last())
    } else {
        s
    }
}

/// All bytes are decimal digits.
pub open spec fn all_digits(s: Seq<u8>) -> bool {
    forall|i: int| 0 <= i < s.len() ==> 48 <= #[trigger] s[i] <= 57
}

/// The number that decimal digits stand for.
pub open spec fn digits_value(s: Seq<u8>) -> nat
    decreases s.len(),
{
    if s.len() == 0 {
        0
    } else {
        10 * digits_value(s.drop_last()) + (s.last() - 48) as nat
    }
}

/// The number that the text stands for: digits, possibly behind a plus sign.
pub open spec fn number_in(s: Seq<u8>) -> Option<nat> {
    let body = if s.len() > 0 && s[0] == 43 { s.drop_first() } else { s };
    if body.len() > 0 && all_digits(body) {
        Some(digits_value(body))
    } else {
        None
    }
}

/// Reads the number in `text[start..end]`; numbers beyond 64 bits are not read.
fn read_number(text: &[u8], start: usize, end: usize) -> (number: Option<u64>)
    requires
        start <= end <= text@.len(),
    ensures
        number == match number_in(text@.subrange(start as int, end as int)) {
            Some(n) => if n <= u64::MAX { Some(n as u64) } else { None },
            None => None,
        },
{
    let ghost whole = text@.subrange(start as int, end as int);
    let first: usize = if start < end && text[start] == 43 {
        start + 1
    } else {
        start
    };
    let ghost body = text@.subrange(first as int, end as int);
    assert(body =~= if whole.len() > 0 && whole[0] == 43 { whole.drop_first() } else { whole });
    if first == end {
        return None;
    }
    let mut value: u128 = 0;
    let mut over: bool = false;
    let mut i: usize = first;
    while i < end
        invariant
            first <= i <= end <= text@.len(),
            body == text@.subrange(first as int, end as int),
            whole == text@.subrange(start as int, end as int),
            body == if whole.len() > 0 && whole[0] == 43 { whole.drop_first() } else { whole },
            forall|j: int| 0 <= j < i - first ==> 48 <= #[trigger] body[j] <= 57,
            !over ==> value == digits_value(body.take(i - first)) && value <= u64::MAX,
            over ==> digits_value(body.take(i - first)) > u64::MAX,
        decreases end - i,
    {
        let b: u8 = text[i];
        assert(body[i - first] == b);
        if b < 48 || b > 57 {
            assert(!all_digits(body));
            return None;
        }
        assert(body.take(i - first + 1).drop_last() =~= body.take(i - first));
        if !over {
            value = 10 * value + (b - 48) as u128;
            if value > u64::MAX as u128 {
                over = true;
            }
        }
        i = i + 1;
    }
    assert(body.take(end - first) =~= body);
    if over {
        None
    } else {
        Some(value as u64)
    }
}

/// The text without white space around it.
pub open spec fn trimmed(s: Seq<u8>) -> Seq<u8> {
    drop_trailing_spaces(drop_spaces(s))
}

/// The cache size that the text tells, in bytes: megabytes where it ends with an `M`,
/// else kilobytes.
pub open spec fn cache_size(s: Seq<u8>) -> Option<nat> {
    let body = trimmed(s);
    let megabytes = body.len() > 0 && body.last() == 77;
    let unit: nat = if megabytes { 1_048_576 } else { 1024 };
    match number_in(drop_trailing(body, if megabytes { 77u8 } else { 75u8 })) {
        Some(n) => if n * unit <= usize::MAX { Some(n * unit) } else { None },
        None => None,
    }
}

/// Where the text goes on behind white space.
fn skip_spaces(text: &[u8], start: usize) -> (at: usize)
    requires
        start <= text@.len(),
    ensures
        start <= at <= text@.len(),
        drop_spaces(text@.skip(start as int)) == text@.skip(at as int),
{
    let mut at: usize = start;
    while at < text.len() && ((9 <= text[at] && text[at] <= 13) || text[at] == 32)
        invariant
            start <= at <= text@.len(),
            drop_spaces(text@.skip(start as int)) == drop_spaces(text@.skip(at as int)),
        decreases text@.len() - at,
    {
        assert(text@.skip(at as int).drop_first() =~= text@.skip(at + 1));
        at = at + 1;
    }
    at
}

/// Where `text[start..end]` ends without bytes `b`.
fn strip_byte(text: &[u8], start: usize, end: usize, b: u8) -> (at: usize)
    requires
        start <= end <= text@.len(),
    ensures
        start <= at <= end,
        drop_trailing(text@.subrange(start as int, end as int), b) == text@.subrange(start as int, at as int),
{
    let mut at: usize = end;
    while at > start && text[at - 1] == b
        invariant
            start <= at <= end <= text@.len(),
            drop_trailing(text@.subrange(start as int, end as int), b) == drop_trailing(
                text@.subrange(start as int, at as int),
                b,
            ),
        decreases at,
    {
        assert(text@.subrange(start as int, at as int).drop_last() =~= text@.subrange(start as int, at - 1));
        at = at - 1;
    }
    at
}

/// Where `text[start..end]` ends without white space.
fn strip_spaces(text: &[u8], start: usize, end: usize) -> (at: usize)
    requires
        start <= end <= text@.len(),
    ensures
        start <= at <= end,
        drop_trailing_spaces(text@.subrange(start as int, end as int)) == text@.subrange(start as int, at as int),
{
    let mut at: usize = end;
    while at > start && ((9 <= text[at - 1] && text[at - 1] <= 13) || text[at - 1] == 32)
        invariant
            start <= at <= end <= text@.len(),
            drop_trailing_spaces(text@.subrange(start as int, end as int)) == drop_trailing_spaces(
                text@.subrange(start as int, at as int),
            ),
        decreases at,
    {
        assert(text@.subrange(start as int, at as int).drop_last() =~= text@.subrange(start as int, at - 1));
        at = at - 1;
    }
    at
}

/// Reads a cache size.
pub fn parse_cache_size(text: &[u8]) -> (size: Option<usize>)
    ensures
        match size {
            Some(n) => cache_size(text@) == Some(n as nat),
            None => cache_size(text@) is None,
        },
{
    assert(text@.skip(0) =~= text@);
    let start: usize = skip_spaces(text, 0);
    assert(text@.skip(start as int) =~= text@.subrange(start as int, text@.len() as int));
    let stop: usize = strip_spaces(text, start, text.len());
    let megabytes: bool = stop > start && text[stop - 1] == 77;
    let end: usize = strip_byte(text, start, stop, if megabytes { 77 } else { 75 });
    let unit: u128 = if megabytes { 1_048_576 } else { 1024 };
    match read_number(text, start, end) {
        Some(n) => {
            assert(0 <= n * unit <= 0xffff_ffff_ffff_ffff * 1_048_576) by (nonlinear_arith)
                requires
                    0 <= n <= 0xffff_ffff_ffff_ffff,
                    0 <= unit <= 1_048_576,
            ;
            let bytes: u128 = n as u128 * unit;
            if bytes <= usize::MAX as u128 {
                Some(bytes as usize)
            } else {
                None
            }
        },
        None => {
            proof {
                let body = trimmed(text@);
                let number = number_in(drop_trailing(body, if megabytes { 77u8 } else { 75u8 }));
                assert(number matches Some(n) ==> n * unit > usize::MAX) by (nonlinear_arith)
                    requires
                        number matches Some(n) ==> n > 0xffff_ffff_ffff_ffff,
                        usize::MAX <= 0xffff_ffff_ffff_ffff,
                        unit >= 1,
                ;
            }
            None
        },
    }
}

/// The size that the text tells, 0 where it is missing or tells none.
pub open spec fn known_size(text: Option<Vec<u8>>) -> int {
    match text {
        Some(text) => match cache_size(text@) {
            Some(n) => n as int,
            None => 0,
        },
        None => 0,
    }
}

fn find_known_size(text: &Option<Vec<u8>>) -> (size: usize)
    ensures
        size == known_size(*text),
{
    match text {
        Some(text) => match parse_cache_size(text.as_slice()) {
            Some(n) => n,
            None => 0,
        },
        None => 0,
    }
}

/// The sizes of the caches in bytes, from the texts that tell them; 0 where a size is unknown.
pub fn cache_sizes(l2: &Option<Vec<u8>>, l3: &Option<Vec<u8>>) -> (sizes: (usize, usize))
    ensures
        sizes.0 == known_size(*l2),
        sizes.1 == known_size(*l3),
{
    (find_known_size(l2), find_known_size(l3))
}

/// The text up to the first line break.
pub open spec fn first_line(s: Seq<u8>) -> Seq<u8>
    decreases s.len(),
{
    if s.len() == 0 || s[0] == 10 {
        Seq::empty()
    } else {
        seq![s[0]] + first_line(s.drop_first())
    }
}

/// The text behind the first line break.
pub open spec fn other_lines(s: Seq<u8>) -> Seq<u8>
    decreases s.len(),
{
    if s.len() == 0 {
        s
    } else if s[0] == 10 {
        s.drop_first()
    } else {
        other_lines(s.drop_first())
    }
}

/// The text behind its first word.
pub open spec fn drop_word(s: Seq<u8>) -> Seq<u8>
    decreases s.len(),
{
    if s.len() > 0 && !is_space(s[0]) {
        drop_word(s.drop_first())
    } else {
        s
    }
}

/// The first word of the text.
pub open spec fn first_word(s: Seq<u8>) -> Seq<u8>
    decreases s.len(),
{
    if s.len() > 0 && !is_space(s[0]) {
        seq![s[0]] + first_word(s.drop_first())
    } else {
        Seq::empty()
    }
}

/// The second word of a line.
pub open spec fn second_word(line: Seq<u8>) -> Seq<u8> {
    first_word(drop_spaces(drop_word(drop_spaces(line))))
}

/// `MemAvailable:`
pub const AVAILABLE_LABEL: [u8; 13] = [77, 101, 109, 65, 118, 97, 105, 108, 97, 98, 108, 101, 58];

/// `MemTotal:`
pub const TOTAL_LABEL: [u8; 9] = [77, 101, 109, 84, 111, 116, 97, 108, 58];

/// The text begins with the label.
pub open spec fn begins_with(s: Seq<u8>, label: Seq<u8>) -> bool {
    s.len() >= label.len() && s.take(label.len() as int) == label
}

/// The line tells an amount of memory: it has one of the labels, and its second word is a number.
pub open spec fn line_amount(line: Seq<u8>) -> Option<nat> {
    if begins_with(line, AVAILABLE_LABEL@) || begins_with(line, TOTAL_LABEL@) {
        match number_in(second_word(line)) {
            Some(n) => if n <= u64::MAX { Some(n) } else { None },
            None => None,
        }
    } else {
        None
    }
}

/// The amount in the first line that tells one.
pub open spec fn first_amount(s: Seq<u8>) -> Option<nat>
    decreases s.len(),
{
    if s.len() == 0 {
        None
    } else {
        match line_amount(first_line(s)) {
            Some(n) => Some(n),
            None => {
                proof {
                    lemma_other_lines_shorter(s);
                }
                first_amount(other_lines(s))
            },
        }
    }
}

/// What follows a line is shorter.
pub proof fn lemma_other_lines_shorter(s: Seq<u8>)
    requires
        s.len() > 0,
    ensures
        other_lines(s).len() < s.len(),
    decreases s.len(),
{
    if s[0] != 10 {
        if s.len() > 1 {
            lemma_other_lines_shorter(s.drop_first());
        } else {
            assert(other_lines(s.drop_first()) == s.drop_first());
        }
    }
}

/// Where the line that starts at `start` ends.
fn find_line_end(text: &[u8], start: usize) -> (at: usize)
    requires
        start <= text@.len(),
    ensures
        start <= at <= text@.len(),
        first_line(text@.skip(start as int)) == text@.subrange(start as int, at as int),
        other_lines(text@.skip(start as int)) == text@.skip(if at < text@.len() { at + 1 } else { at as int }),
{
    let mut at: usize = start;
    while at < text.len() && text[at] != 10
        invariant
            start <= at <= text@.len(),
            first_line(text@.skip(start as int)) == text@.subrange(start as int, at as int) + first_line(
                text@.skip(at as int),
            ),
            other_lines(text@.skip(start as int)) == other_lines(text@.skip(at as int)),
        decreases text@.len() - at,
    {
        proof {
            let rest = text@.skip(at as int);
            assert(rest.drop_first() =~= text@.skip(at + 1));
            assert(text@.subrange(start as int, at as int) + (seq![rest[0]] + first_line(text@.skip(at + 1)))
                =~= text@.subrange(start as int, at + 1) + first_line(text@.skip(at + 1)));
        }
        at = at + 1;
    }
    proof {
        let rest = text@.skip(at as int);
        assert(first_line(rest) =~= Seq::<u8>::empty());
        assert(text@.subrange(start as int, at as int) + Seq::<u8>::empty() =~= text@.subrange(start as int, at as int));
        if at < text@.len() {
            assert(rest.drop_first() =~= text@.skip(at + 1));
        }
    }
    at
}

/// Whether the text begins with the label.
fn check_label(text: &[u8], label: &[u8]) -> (yes: bool)
    ensures
        yes == begins_with(text@, label@),
{
    if text.len() < label.len() {
        return false;
    }
    let ghost head = text@.take(label@.len() as int);
    let mut i: usize = 0;
    while i < label.len()
        invariant
            i <= label@.len() <= text@.len(),
            head == text@.take(label@.len() as int),
            forall|j: int| 0 <= j < i ==> text@[j] == #[trigger] label@[j],
        decreases label@.len() - i,
    {
        if text[i] != label[i] {
            assert(head[i as int] != label@[i as int]);
            return false;
        }
        i = i + 1;
    }
    assert(head =~= label@);
    true
}

/// Where the text goes on behind its first word.
fn skip_word(text: &[u8], start: usize) -> (at: usize)
    requires
        start <= text@.len(),
    ensures
        start <= at <= text@.len(),
        drop_word(text@.skip(start as int)) == text@.skip(at as int),
        first_word(text@.skip(start as int)) == text@.subrange(start as int, at as int),
{
    let mut at: usize = start;
    while at < text.len() && !((9 <= text[at] && text[at] <= 13) || text[at] == 32)
        invariant
            start <= at <= text@.len(),
            drop_word(text@.skip(start as int)) == drop_word(text@.skip(at as int)),
            first_word(text@.skip(start as int)) == text@.subrange(start as int, at as int) + first_word(
                text@.skip(at as int),
            ),
        decreases text@.len() - at,
    {
        proof {
            let rest = text@.skip(at as int);
            assert(rest.drop_first() =~= text@.skip(at + 1));
            assert(text@.subrange(start as int, at as int) + (seq![rest[0]] + first_word(text@.skip(at + 1)))
                =~= text@.subrange(start as int, at + 1) + first_word(text@.skip(at + 1)));
        }
        at = at + 1;
    }
    assert(text@.subrange(start as int, at as int) + Seq::<u8>::empty() =~= text@.subrange(start as int, at as int));
    at
}

/// Reads the amount that a line tells.
fn read_line(line: &[u8]) -> (amount: Option<u64>)
    ensures
        match amount {
            Some(n) => line_amount(line@) == Some(n as nat),
            None => line_amount(line@) is None,
        },
{
    if !check_label(line, AVAILABLE_LABEL.as_slice()) && !check_label(line, TOTAL_LABEL.as_slice()) {
        return None;
    }
    assert(line@.skip(0) =~= line@);
    let word: usize = skip_spaces(line, 0);
    let gap: usize = skip_word(line, word);
    let start: usize = skip_spaces(line, gap);
    let end: usize = skip_word(line, start);
    read_number(line, start, end)
}

/// The memory that the text tells, in bytes; 0 where it is missing or tells none.
pub fn available_ram(meminfo: &Option<Vec<u8>>) -> (bytes: u64)
    ensures
        bytes == match meminfo {
            Some(text) => match first_amount(text@) {
                Some(n) => if n * 1024 <= u64::MAX { (n * 1024) as u64 } else { u64::MAX },
                None => 0,
            },
            None => 0,
        },
{
    let text: &Vec<u8> = match meminfo {
        Some(text) => text,
        None => {
            return 0;
        },
    };
    let mut start: usize = 0;
    assert(text@.skip(0) =~= text@);
    while start < text.len()
        invariant
            start <= text@.len(),
            *meminfo == Some(*text),
            first_amount(text@.skip(start as int)) == first_amount(text@),
        decreases text@.len() - start,
    {
        let end: usize = find_line_end(text.as_slice(), start);
        let mut line: Vec<u8> = Vec::new();
        let mut i: usize = start;
        while i < end
            invariant
                start <= i <= end <= text@.len(),
                line@ == text@.subrange(start as int, i as int),
            decreases end - i,
        {
            line.push(text[i]);
            assert(line@ =~= text@.subrange(start as int, i + 1));
            i = i + 1;
        }
        match read_line(line.as_slice()) {
            Some(n) => {
                let wide: u128 = n as u128 * 1024;
                return if wide <= u64::MAX as u128 {
                    wide as u64
                } else {
                    u64::MAX
                };
            },
            None => {},
        }
        start = if end < text.len() {
            end + 1
        } else {
            end
        };
    }
    assert(text@.skip(start as int).len() == 0);
    0
}

/// What all workers get together is no more than fast memory has.
pub proof fn budgets_fit_together(capacity: int, workers: int)
    requires
        capacity >= 0,
        workers >= 1,
    ensures
        0 <= workers * arith::quotient(arith::share(capacity, 90), workers) <= capacity,
{
    let usable = arith::share(capacity, 90);
    assert(0 <= workers * (usable / workers) <= usable) by (nonlinear_arith)
        requires
            usable >= 0,
            workers >= 1,
    ;
}

} // verus!
