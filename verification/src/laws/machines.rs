//! What follows from the machine, and what the texts about it tell.
use vstd::prelude::*;
use crate::{arith, hw_profile};
use crate::hw_profile::{MachineProfile, WorkerProfile};
use crate::models::Problem;

verus! {

/// All cores but one work where there are more than two, else one does.
pub proof fn one_core_is_left(cores: int)
    requires
        cores >= 0,
    ensures
        cores > 2 ==> hw_profile::workers_for(cores) + 1 == cores,
        cores <= 2 ==> hw_profile::workers_for(cores) == 1,
{
}

/// Graphs of 500 operations or more are shared out if there are several workers. Two tiles
/// for each worker are as large as possible, but of 100 operations at least and 2000 at
/// most; without sharing there is one tile. The workers get equal parts of nine tenths of
/// fast memory, as large as possible.
pub proof fn large_problems_are_shared_out(profile: WorkerProfile, machine: MachineProfile, p: Problem)
    requires
        profile.use_multiprocess == hw_profile::deserves_processes(p.ops@.len() as int, machine.num_workers as int),
        profile.tile_size_hint == if profile.use_multiprocess {
            hw_profile::bounded(p.ops@.len() as int / (2 * machine.num_workers), 100, 2000)
        } else {
            p.ops@.len() as int
        },
        profile.sram_budget_per_zone == arith::quotient(
            arith::share(p.fast_memory_capacity as int, 90),
            if profile.use_multiprocess { machine.num_workers as int } else { 1 },
        ),
        profile.shm_segment_size == hw_profile::bounded(384 * p.ops@.len() as int + 4096, 65_536, 67_108_864),
        p.fast_memory_capacity >= 0,
    ensures
        ({
            let n = p.ops@.len() as int;
            let tiles = 2 * machine.num_workers;
            let hint = profile.tile_size_hint as int;
            let shares: int = if profile.use_multiprocess { machine.num_workers as int } else { 1 };
            let budget = profile.sram_budget_per_zone as int;
            &&& profile.use_multiprocess <==> n >= 500 && machine.num_workers > 1
            &&& !profile.use_multiprocess ==> hint == n
            &&& profile.use_multiprocess ==> 100 <= hint <= 2000 && (hint > 100 ==> hint * tiles <= n) && (hint < 2000 ==> n
                < (hint + 1) * tiles)
            &&& 0 <= 10 * (budget * shares) <= 9 * p.fast_memory_capacity
            &&& 9 * p.fast_memory_capacity < 10 * ((budget + 1) * shares)
            &&& 65_536 <= profile.shm_segment_size <= 67_108_864
            &&& 65_536 <= 384 * n + 4096 <= 67_108_864 ==> profile.shm_segment_size == 384 * n + 4096
        }),
{
    let n = p.ops@.len() as int;
    let cap = p.fast_memory_capacity as int;
    let tiles = 2 * machine.num_workers;
    let hint = profile.tile_size_hint as int;
    let shares: int = if profile.use_multiprocess { machine.num_workers as int } else { 1 };
    let budget = profile.sram_budget_per_zone as int;
    if profile.use_multiprocess {
        let even = n / tiles;
        assert(even * tiles <= n < (even + 1) * tiles) by (nonlinear_arith)
            requires
                even == n / tiles,
                tiles > 0,
                n >= 0,
        ;
        if hint > 100 {
            assert(hint * tiles <= n) by (nonlinear_arith)
                requires
                    hint <= even,
                    even * tiles <= n,
                    tiles > 0,
            ;
        }
        if hint < 2000 {
            assert(n < (hint + 1) * tiles) by (nonlinear_arith)
                requires
                    hint >= even,
                    n < (even + 1) * tiles,
                    tiles > 0,
            ;
        }
    }
    let room = cap * 90 / 100;
    assert(arith::share(cap, 90) == room);
    assert(budget == room / shares);
    assert(budget >= 0 && budget * shares <= room < (budget + 1) * shares) by (nonlinear_arith)
        requires
            budget == room / shares,
            shares > 0,
            room >= 0,
    ;
    assert(0 <= budget * shares) by (nonlinear_arith)
        requires
            budget >= 0,
            shares > 0,
    ;
}

/// All bytes are white space.
pub open spec fn all_space(s: Seq<u8>) -> bool {
    forall|i: int| 0 <= i < s.len() ==> (#[trigger] s[i]) == 32 || 9 <= s[i] <= 13
}

/// No byte is white space.
pub open spec fn no_space(s: Seq<u8>) -> bool {
    forall|i: int| 0 <= i < s.len() ==> (#[trigger] s[i]) != 32 && !(9 <= s[i] <= 13)
}

proof fn lemma_leading(gap: Seq<u8>, rest: Seq<u8>)
    requires
        all_space(gap),
        rest.len() == 0 || (rest[0] != 32 && !(9 <= rest[0] <= 13)),
    ensures
        hw_profile::drop_spaces(gap + rest) == rest,
    decreases gap.len(),
{
    let all = gap + rest;
    if gap.len() == 0 {
        assert(all =~= rest);
    } else {
        assert(all[0] == gap[0]);
        assert(all.drop_first() =~= gap.drop_first() + rest);
        lemma_leading(gap.drop_first(), rest);
    }
}

proof fn lemma_trailing(rest: Seq<u8>, gap: Seq<u8>)
    requires
        all_space(gap),
        rest.len() == 0 || (rest.last() != 32 && !(9 <= rest.last() <= 13)),
    ensures
        hw_profile::drop_trailing_spaces(rest + gap) == rest,
    decreases gap.len(),
{
    let all = rest + gap;
    if gap.len() == 0 {
        assert(all =~= rest);
    } else {
        assert(all.last() == gap.last());
        assert(all.drop_last() =~= rest + gap.drop_last());
        assert(gap[gap.len() - 1] == gap.last());
        lemma_trailing(rest, gap.drop_last());
    }
}

/// The number that decimal digits stand for grows tenfold with each further digit.
pub proof fn digits_stand_for_numbers(s: Seq<u8>, d: u8)
    requires
        48 <= d <= 57,
    ensures
        hw_profile::digits_value(s.push(d)) == 10 * hw_profile::digits_value(s) + (d - 48),
        hw_profile::digits_value(Seq::<u8>::empty()) == 0,
{
    assert(s.push(d).drop_last() =~= s);
}

/// The number that a text of digits, with a plus sign before them or not, tells; any other
/// text tells none.
pub proof fn numbers_are_digits(s: Seq<u8>)
    ensures
        ({
            let digits = s.len() > 0 && forall|i: int| 0 <= i < s.len() ==> 48 <= #[trigger] s[i] <= 57;
            let signed = s.len() > 1 && s[0] == 43 && forall|i: int| 1 <= i < s.len() ==> 48 <= #[trigger] s[i] <= 57;
            &&& digits ==> hw_profile::number_in(s) == Some(hw_profile::digits_value(s))
            &&& signed ==> hw_profile::number_in(s) == Some(hw_profile::digits_value(s.skip(1)))
            &&& hw_profile::number_in(s) is Some <==> digits || signed
        }),
{
    let digits = s.len() > 0 && forall|i: int| 0 <= i < s.len() ==> 48 <= #[trigger] s[i] <= 57;
    let signed = s.len() > 1 && s[0] == 43 && forall|i: int| 1 <= i < s.len() ==> 48 <= #[trigger] s[i] <= 57;
    if s.len() > 0 && s[0] == 43 {
        let body = s.drop_first();
        assert(body =~= s.skip(1));
        if hw_profile::all_digits(body) {
            assert forall|i: int| 1 <= i < s.len() implies 48 <= #[trigger] s[i] <= 57 by {
                assert(body[i - 1] == s[i]);
            }
        }
        if signed {
            assert forall|i: int| 0 <= i < body.len() implies 48 <= #[trigger] body[i] <= 57 by {
                assert(body[i] == s[i + 1]);
            }
        }
    }
}

/// Digits followed by `K`, or by nothing, tell that many times 1024 bytes; followed by `M`
/// they tell that many times 1048576. White space around does not matter, and what is
/// beyond the machine is not told.
pub proof fn cache_sizes_have_units(before: Seq<u8>, digits: Seq<u8>, unit: Seq<u8>, after: Seq<u8>)
    requires
        all_space(before),
        all_space(after),
        digits.len() > 0,
        hw_profile::all_digits(digits),
        unit == seq![75u8] || unit == seq![77u8] || unit == Seq::<u8>::empty(),
    ensures
        ({
            let bytes = hw_profile::digits_value(digits) * (if unit == seq![77u8] { 1_048_576nat } else { 1024nat });
            let told = hw_profile::cache_size(before + (digits + unit + after));
            &&& bytes <= usize::MAX ==> told == Some(bytes)
            &&& bytes > usize::MAX ==> told is None
        }),
{
    let body = digits + unit;
    let text = before + (digits + unit + after);
    assert((digits + unit + after) =~= body + after);
    assert(body[0] == digits[0]);
    assert((body + after)[0] == digits[0]);
    lemma_leading(before, body + after);
    if unit.len() > 0 {
        assert(body.last() == unit[0]);
    } else {
        assert(body =~= digits);
        assert(body.last() == digits[digits.len() - 1]);
    }
    lemma_trailing(body, after);
    assert(hw_profile::trimmed(text) == body);
    let b = if unit == seq![77u8] { 77u8 } else { 75u8 };
    assert(unit == seq![77u8] <==> unit.len() > 0 && unit[0] == 77);
    assert(hw_profile::drop_trailing(body, b) == digits) by {
        assert(digits.last() == digits[digits.len() - 1]);
        assert(hw_profile::drop_trailing(digits, b) == digits);
        if unit.len() > 0 {
            assert(body.last() == b);
            assert(body.drop_last() =~= digits);
        } else {
            assert(body =~= digits);
        }
    }
    numbers_are_digits(digits);
}

proof fn lemma_line(line: Seq<u8>, rest: Seq<u8>)
    requires
        forall|i: int| 0 <= i < line.len() ==> #[trigger] line[i] != 10,
    ensures
        hw_profile::first_line(line + seq![10u8] + rest) == line,
        hw_profile::other_lines(line + seq![10u8] + rest) == rest,
    decreases line.len(),
{
    let all = line + seq![10u8] + rest;
    if line.len() == 0 {
        assert(all[0] == 10);
        assert(all.drop_first() =~= rest);
        assert(hw_profile::first_line(all) =~= line);
    } else {
        assert(all[0] == line[0]);
        assert(all.drop_first() =~= line.drop_first() + seq![10u8] + rest);
        lemma_line(line.drop_first(), rest);
        assert(seq![line[0]] + line.drop_first() =~= line);
    }
}

/// The first line that tells an amount decides.
pub proof fn the_first_amount_counts(line: Seq<u8>, rest: Seq<u8>)
    requires
        forall|i: int| 0 <= i < line.len() ==> #[trigger] line[i] != 10,
    ensures
        hw_profile::line_amount(line) is Some ==> hw_profile::first_amount(line + seq![10u8] + rest)
            == hw_profile::line_amount(line),
        hw_profile::line_amount(line) is None ==> hw_profile::first_amount(line + seq![10u8] + rest)
            == hw_profile::first_amount(rest),
{
    lemma_line(line, rest);
    assert((line + seq![10u8] + rest).len() > 0);
}

proof fn lemma_word(word: Seq<u8>, rest: Seq<u8>)
    requires
        no_space(word),
        rest.len() == 0 || rest[0] == 32 || 9 <= rest[0] <= 13,
    ensures
        hw_profile::first_word(word + rest) == word,
        hw_profile::drop_word(word + rest) == rest,
    decreases word.len(),
{
    let all = word + rest;
    if word.len() == 0 {
        assert(all =~= rest);
        assert(hw_profile::first_word(all) =~= word);
    } else {
        assert(all[0] == word[0]);
        assert(all.drop_first() =~= word.drop_first() + rest);
        lemma_word(word.drop_first(), rest);
        assert(seq![word[0]] + word.drop_first() =~= word);
    }
}

/// A line that begins with `MemAvailable:` or `MemTotal:`, followed by white space and
/// digits as a word of their own, tells that number; a line that begins otherwise tells none.
pub proof fn labelled_lines_tell_amounts(label: Seq<u8>, gap: Seq<u8>, digits: Seq<u8>, tail: Seq<u8>, other: Seq<u8>)
    requires
        label == seq![77u8, 101, 109, 65, 118, 97, 105, 108, 97, 98, 108, 101, 58] || label == seq![
            77u8,
            101,
            109,
            84,
            111,
            116,
            97,
            108,
            58,
        ],
        gap.len() > 0,
        all_space(gap),
        digits.len() > 0,
        hw_profile::all_digits(digits),
        tail.len() == 0 || tail[0] == 32 || 9 <= tail[0] <= 13,
        other.len() < 4 || other[0] != 77 || other[1] != 101 || other[2] != 109 || (other[3] != 65 && other[3] != 84),
    ensures
        hw_profile::digits_value(digits) <= u64::MAX ==> hw_profile::line_amount(label + (gap + (digits + tail))) == Some(
            hw_profile::digits_value(digits),
        ),
        hw_profile::digits_value(digits) > u64::MAX ==> hw_profile::line_amount(label + (gap + (digits + tail))) is None,
        hw_profile::line_amount(other) is None,
{
    let line = label + (gap + (digits + tail));
    assert(no_space(label)) by {
        assert forall|i: int| 0 <= i < label.len() implies (#[trigger] label[i]) != 32 && !(9 <= label[i] <= 13) by {
            assert(label.len() <= 13);
        }
    }
    assert(line[0] == label[0]);
    lemma_leading(Seq::empty(), line);
    assert(Seq::<u8>::empty() + line =~= line);
    assert((gap + (digits + tail))[0] == gap[0]);
    lemma_word(label, gap + (digits + tail));
    assert((digits + tail)[0] == digits[0]);
    lemma_leading(gap, digits + tail);
    assert(no_space(digits));
    lemma_word(digits, tail);
    assert(hw_profile::second_word(line) == digits);
    numbers_are_digits(digits);
    assert(line.take(label.len() as int) =~= label);
    if label.len() == 13 {
        assert(hw_profile::AVAILABLE_LABEL@ =~= label);
    } else {
        assert(hw_profile::TOTAL_LABEL@ =~= label);
    }
    let one = hw_profile::AVAILABLE_LABEL@;
    let two = hw_profile::TOTAL_LABEL@;
    assert(one[0] == 77 && one[1] == 101 && one[2] == 109 && one[3] == 65 && one.len() == 13);
    assert(two[0] == 77 && two[1] == 101 && two[2] == 109 && two[3] == 84 && two.len() == 9);
    if hw_profile::begins_with(other, one) {
        let front = other.take(13);
        assert(front[0] == other[0] && front[1] == other[1] && front[2] == other[2] && front[3] == other[3]);
    }
    if hw_profile::begins_with(other, two) {
        let front = other.take(9);
        assert(front[0] == other[0] && front[1] == other[1] && front[2] == other[2] && front[3] == other[3]);
    }
}

} // verus!
