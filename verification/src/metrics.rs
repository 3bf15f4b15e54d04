//! The state of a machine, from what its system says.
//!
//! On Linux everything comes from `/proc`, from `df` and from the files that
//! name the system. Elsewhere the tools of the system are asked.

use vstd::prelude::*;
use crate::bytes;
use crate::digits;
use crate::num;
use crate::num::Num;
use crate::numeral;
use crate::table;
use crate::text;

verus! {

/// The state of a machine.
#[derive(Debug, Clone)]
pub struct Metrics {
    pub cpu_percent: Num,
    pub cores: u32,
    pub mem_used: u64,
    pub mem_total: u64,
    pub swap_used: u64,
    pub swap_total: u64,
    pub load1: Num,
    pub load5: Num,
    pub load15: Num,
    pub uptime_secs: u64,
    /// In bytes per second.
    pub net_rx_rate: Num,
    /// In bytes per second.
    pub net_tx_rate: Num,
    pub disk_used: u64,
    pub disk_total: u64,
    pub os: String,
    /// Which of the probed endpoints answered; none stands twice.
    pub ports: Vec<(String, bool)>,
}

/// `part * 100 / whole`, or zero where the whole is zero.
pub open spec fn percent(part: nat, whole: nat) -> u64 {
    if whole == 0 {
        0
    } else {
        num::quotient(
            num::product(num::of_int(part as int), num::of_int(100)),
            num::of_int(whole as int),
        )
    }
}

/// A percentage of numbers of 64 bits is a finite number and not a negative one.
pub proof fn lemma_percent_finite(part: nat, whole: nat)
    requires
        part <= u64::MAX,
        whole <= u64::MAX,
    ensures
        num::is_finite(percent(part, whole)),
        !num::is_neg(percent(part, whole)),
{
    num::law_small_whole_numbers_are_exact(0);
    if whole > 0 {
        let a = num::of_int(part as int);
        let h = num::of_int(100);
        let b = num::of_int(whole as int);
        num::lemma_of_int_finite(part as int);
        num::lemma_of_int_finite(whole as int);
        num::lemma_of_int_size(part as int);
        num::lemma_of_int_size(100);
        num::lemma_of_int_size(whole as int);
        num::law_small_whole_numbers_are_exact(100);
        let p = num::product(a, h);
        num::lemma_product_size(a, h);
        num::lemma_quotient_size(p, b);
    }
}

/// `part * 100 / whole`, or zero where the whole is zero.
fn percent_of(part: u64, whole: u64) -> (r: Num)
    ensures
        r.bits == percent(part as nat, whole as nat),
{
    if whole == 0 {
        Num { bits: 0 }
    } else {
        Num::of_u64(part).times(Num::of_u64(100)).over(Num::of_u64(whole))
    }
}

impl Metrics {
    /// How much of the memory is in use.
    pub fn mem_percent(&self) -> (r: Num)
        ensures
            r.bits == percent(self.mem_used as nat, self.mem_total as nat),
    {
        percent_of(self.mem_used, self.mem_total)
    }

    /// How much of the disk is in use.
    pub fn disk_percent(&self) -> (r: Num)
        ensures
            r.bits == percent(self.disk_used as nat, self.disk_total as nat),
    {
        percent_of(self.disk_used, self.disk_total)
    }
}

// -------------------------------------------------------------------- numbers

/// The number that a text writes, or zero.
pub open spec fn number(s: Seq<char>) -> nat {
    match digits::unsigned(s, 10, u64::MAX as nat) {
        Some(n) => n,
        None => 0,
    }
}

/// The number that a text writes, or zero.
fn read_number(s: &str) -> (r: u64)
    ensures
        r == number(s@),
{
    match digits::read_unsigned(s, 10, u64::MAX) {
        Some(n) => n,
        None => 0,
    }
}

/// The numbers among the texts from `i` on.
pub open spec fn numbers(w: Seq<Seq<char>>, i: int) -> Seq<nat>
    decreases w.len() - i,
{
    if i >= w.len() {
        Seq::empty()
    } else {
        match digits::unsigned(w[i], 10, u64::MAX as nat) {
            Some(n) => seq![n] + numbers(w, i + 1),
            None => numbers(w, i + 1),
        }
    }
}

/// The sum of the first `n` numbers.
pub open spec fn sum_to(v: Seq<nat>, n: int) -> nat
    decreases n,
{
    if n <= 0 {
        0
    } else {
        sum_to(v, n - 1) + v[n - 1]
    }
}

proof fn lemma_sum_grows(v: Seq<nat>, a: int, b: int)
    requires
        a <= b <= v.len(),
    ensures
        sum_to(v, a) <= sum_to(v, b),
    decreases b - a,
{
    if a < b && b > 0 {
        lemma_sum_grows(v, a, b - 1);
    }
}

/// Unsigned numbers as mathematical ones.
pub open spec fn nats(v: Seq<u64>) -> Seq<nat> {
    v.map_values(|x: u64| x as nat)
}

/// Reads the numbers among the texts from `from` on.
fn read_numbers(w: &Vec<String>, from: usize) -> (r: Vec<u64>)
    ensures
        nats(r@) == numbers(text::texts(w@), from as int),
{
    let ghost ws = text::texts(w@);
    let mut out: Vec<u64> = Vec::new();
    let mut i: usize = from;
    assert(nats(out@) =~= Seq::<nat>::empty());
    assert(Seq::<nat>::empty() + numbers(ws, from as int) =~= numbers(ws, from as int));
    while i < w.len()
        invariant
            ws == text::texts(w@),
            nats(out@) + numbers(ws, i as int) == numbers(ws, from as int),
        decreases w@.len() - i,
    {
        let ghost was = nats(out@);
        assert(ws[i as int] == w@[i as int]@);
        if let Some(n) = digits::read_unsigned(w[i].as_str(), 10, u64::MAX) {
            out.push(n);
            assert(nats(out@) =~= was.push(n as nat));
            assert(nats(out@) + numbers(ws, i + 1) =~= was + (seq![n as nat] + numbers(ws, i + 1)));
        }
        i = i + 1;
    }
    assert(nats(out@) + Seq::<nat>::empty() =~= nats(out@));
    out
}

// ------------------------------------------------------------------ processor

/// The times in `/proc/stat` (user, nice, system, idle, iowait and more), where it has at least
/// four.
pub open spec fn cpu_times(stat: Seq<char>) -> Option<Seq<nat>> {
    let ls = text::lines(stat);
    let i = text::first_beginning(ls, "cpu "@, 0);
    if 0 <= i < ls.len() && numbers(text::words(ls[i]), 1).len() >= 4 {
        Some(numbers(text::words(ls[i]), 1))
    } else {
        None
    }
}

/// The time that a processor was idle or waited for input and output.
pub open spec fn idle_time(t: Seq<nat>) -> nat {
    t[3] + (if t.len() > 4 {
        t[4]
    } else {
        0
    })
}

/// The time in all, and the idle time.
pub open spec fn cpu_view(stat: Seq<char>) -> Option<(nat, nat)> {
    match cpu_times(stat) {
        Some(t) => Some((sum_to(t, t.len() as int), idle_time(t))),
        None => None,
    }
}

/// Whether the times in `/proc/stat` add up within 64 bits.
pub open spec fn cpu_fits(stat: Seq<char>) -> bool {
    cpu_view(stat) matches Some(p) ==> p.0 <= u64::MAX
}

/// Two numbers as mathematical ones.
pub open spec fn pair_view(p: Option<(u64, u64)>) -> Option<(nat, nat)> {
    match p {
        Some(q) => Some((q.0 as nat, q.1 as nat)),
        None => None,
    }
}

/// Reads the times in `/proc/stat`.
fn read_cpu_times(stat: &str) -> (r: Option<Vec<u64>>)
    ensures
        match r {
            Some(t) => cpu_times(stat@) == Some(nats(t@)) && t@.len() >= 4,
            None => cpu_times(stat@) is None,
        },
{
    let ls = text::split_lines(stat);
    match text::find_beginning(&ls, "cpu ") {
        Some(i) => {
            assert(text::texts(ls@)[i as int] == ls@[i as int]@);
            let w = text::split_words(ls[i].as_str());
            let t = read_numbers(&w, 1);
            assert(nats(t@).len() == t@.len());
            if t.len() >= 4 {
                Some(t)
            } else {
                None
            }
        },
        None => None,
    }
}

/// Says whether the times in `/proc/stat` add up within 64 bits.
pub fn cpu_countable(stat: &str) -> (r: bool)
    ensures
        r == cpu_fits(stat@),
{
    match read_cpu_times(stat) {
        None => true,
        Some(t) => {
            let ghost ts = nats(t@);
            let mut total: u64 = 0;
            let mut i: usize = 0;
            while i < t.len()
                invariant
                    i <= t@.len(),
                    ts == nats(t@),
                    cpu_times(stat@) == Some(ts),
                    total == sum_to(ts, i as int),
                decreases t@.len() - i,
            {
                assert(sum_to(ts, i + 1) == total + t@[i as int]);
                total = match total.checked_add(t[i]) {
                    Some(x) => x,
                    None => {
                        proof {
                            lemma_sum_grows(ts, i + 1, ts.len() as int);
                        }
                        return false;
                    },
                };
                i = i + 1;
            }
            true
        },
    }
}

/// Reads the time in all and the idle time from `/proc/stat`.
pub fn cpu_snapshot(stat: &str) -> (r: Option<(u64, u64)>)
    requires
        cpu_fits(stat@),
    ensures
        pair_view(r) == cpu_view(stat@),
{
    match read_cpu_times(stat) {
        None => None,
        Some(t) => {
            let ghost ts = nats(t@);
            let mut total: u64 = 0;
            let mut i: usize = 0;
            while i < t.len()
                invariant
                    i <= t@.len(),
                    ts == nats(t@),
                    sum_to(ts, ts.len() as int) <= u64::MAX,
                    total == sum_to(ts, i as int),
                decreases t@.len() - i,
            {
                proof {
                    lemma_sum_grows(ts, i + 1, ts.len() as int);
                }
                assert(sum_to(ts, i + 1) == total + t@[i as int]);
                total = total + t[i];
                i = i + 1;
            }
            proof {
                lemma_idle(ts);
            }
            let idle = if t.len() > 4 {
                t[3] + t[4]
            } else {
                t[3]
            };
            Some((total, idle))
        },
    }
}

/// The idle time is part of the time in all.
proof fn lemma_idle(t: Seq<nat>)
    requires
        t.len() >= 4,
    ensures
        idle_time(t) <= sum_to(t, t.len() as int),
{
    assert(sum_to(t, 4) >= t[3]);
    if t.len() > 4 {
        assert(sum_to(t, 5) == sum_to(t, 4) + t[4]);
        lemma_sum_grows(t, 5, t.len() as int);
    }
}

/// The processor's use between two readings of the time in all and the idle time: what was not
/// idle, in percent, within 0 and 100.
pub open spec fn cpu_use(u1: nat, i1: nat, u2: nat, i2: nat) -> u64 {
    if u2 > u1 {
        let total = num::of_int(u2 - u1);
        let idle = num::of_int(
            if i2 > i1 {
                i2 - i1
            } else {
                0
            },
        );
        let x = num::product(num::quotient(num::gap(total, idle), total), num::of_int(100));
        if num::less(x, 0) {
            0
        } else if num::less(num::of_int(100), x) {
            num::of_int(100)
        } else {
            x
        }
    } else {
        0
    }
}

/// The processor's use between two readings.
pub fn cpu_percent(first: (u64, u64), second: (u64, u64)) -> (r: Num)
    ensures
        r.bits == cpu_use(
            first.0 as nat,
            first.1 as nat,
            second.0 as nat,
            second.1 as nat,
        ),
{
    if second.0 > first.0 {
        let total = Num::of_u64(second.0 - first.0);
        let waited: u64 = if second.1 > first.1 {
            second.1 - first.1
        } else {
            0
        };
        let idle = Num::of_u64(waited);
        proof {
            num::lemma_of_int_finite((second.0 - first.0) as int);
            num::lemma_of_int_finite(waited as int);
        }
        let hundred = Num::of_u64(100);
        let zero = Num { bits: 0 };
        let x = total.less_by(idle).over(total).times(hundred);
        if x.is_less(zero) {
            zero
        } else if hundred.is_less(x) {
            hundred
        } else {
            x
        }
    } else {
        Num { bits: 0 }
    }
}

/// The processor's use is a number from 0 to 100, whatever the two readings say.
pub proof fn law_cpu_use_is_a_percentage(u1: nat, i1: nat, u2: nat, i2: nat)
    requires
        u1 <= u64::MAX && u2 <= u64::MAX && i1 <= u64::MAX && i2 <= u64::MAX,
    ensures
        !num::is_nan(cpu_use(u1, i1, u2, i2)),
        !num::less(cpu_use(u1, i1, u2, i2), 0),
        !num::less(num::of_int(100), cpu_use(u1, i1, u2, i2)),
{
    num::law_small_whole_numbers_are_exact(100);
    num::lemma_scaled_small();
    if u2 > u1 {
        let t = num::of_int(u2 - u1);
        let i = num::of_int(minus(i2, i1) as int);
        num::lemma_of_int_finite(u2 - u1);
        num::lemma_of_int_nonzero(u2 - u1);
        num::lemma_of_int_finite(minus(i2, i1) as int);
        let g = num::gap(t, i);
        num::lemma_gap_number(t, i);
        let q = num::quotient(g, t);
        num::lemma_quotient_number(g, t);
        num::lemma_product_number(q, num::of_int(100));
    }
    num::lemma_less_in_order(0, num::of_int(100));
}

// -------------------------------------------------------------------- network

/// What a line of `/proc/net/dev` adds to the bytes received and sent: nothing for the loopback
/// interface and for a line that is too short.
pub open spec fn net_line(line: Seq<char>) -> (nat, nat) {
    let w = text::words(line);
    if w.len() < 10 || text::strip_end(w[0], seq![':']) == "lo"@ {
        (0, 0)
    } else {
        (number(w[1]), number(w[9]))
    }
}

/// The bytes received and sent by the interfaces in the first `n` lines after the two of the
/// heading.
pub open spec fn net_to(ls: Seq<Seq<char>>, n: int) -> (nat, nat)
    decreases n,
{
    if n <= 2 {
        (0, 0)
    } else {
        let p = net_to(ls, n - 1);
        let l = net_line(ls[n - 1]);
        (p.0 + l.0, p.1 + l.1)
    }
}

/// The bytes received and sent by all interfaces but the loopback one.
pub open spec fn net_view(dev: Seq<char>) -> (nat, nat) {
    net_to(text::lines(dev), text::lines(dev).len() as int)
}

/// Whether the bytes in `/proc/net/dev` add up within 64 bits.
pub open spec fn net_fits(dev: Seq<char>) -> bool {
    net_view(dev).0 <= u64::MAX && net_view(dev).1 <= u64::MAX
}

proof fn lemma_net_grows(ls: Seq<Seq<char>>, a: int, b: int)
    requires
        a <= b <= ls.len(),
    ensures
        net_to(ls, a).0 <= net_to(ls, b).0,
        net_to(ls, a).1 <= net_to(ls, b).1,
    decreases b - a,
{
    if a < b && b > 2 {
        lemma_net_grows(ls, a, b - 1);
    }
}

/// Reads what a line of `/proc/net/dev` adds.
fn read_net_line(line: &str) -> (r: (u64, u64))
    ensures
        (r.0 as nat, r.1 as nat) == net_line(line@),
{
    proof {
        reveal_strlit(":");
        assert(":"@ =~= seq![':']);
    }
    let w = text::split_words(line);
    assert(text::texts(w@).len() == w@.len());
    if w.len() < 10 {
        return (0, 0);
    }
    assert(text::texts(w@)[0] == w@[0]@);
    assert(text::texts(w@)[1] == w@[1]@);
    assert(text::texts(w@)[9] == w@[9]@);
    if text::same(text::trim_end_of(w[0].as_str(), ":").as_str(), "lo") {
        return (0, 0);
    }
    (read_number(w[1].as_str()), read_number(w[9].as_str()))
}

/// Adds up the bytes in `/proc/net/dev`, where they fit into 64 bits.
fn add_net(dev: &str) -> (r: Option<(u64, u64)>)
    ensures
        match r {
            Some(p) => net_fits(dev@) && (p.0 as nat, p.1 as nat) == net_view(dev@),
            None => !net_fits(dev@),
        },
{
    let ls = text::split_lines(dev);
    let ghost lv = text::texts(ls@);
    let mut rx: u64 = 0;
    let mut tx: u64 = 0;
    let mut i: usize = 2;
    assert(lv.len() == ls@.len());
    while i < ls.len()
        invariant
            2 <= i,
            i <= ls@.len() || i == 2,
            lv == text::texts(ls@),
            lv == text::lines(dev@),
            (rx as nat, tx as nat) == net_to(lv, i as int),
        decreases ls@.len() - i,
    {
        assert(lv[i as int] == ls@[i as int]@);
        let (r, t) = read_net_line(ls[i].as_str());
        proof {
            lemma_net_grows(lv, i + 1, lv.len() as int);
        }
        rx = match rx.checked_add(r) {
            Some(x) => x,
            None => {
                return None;
            },
        };
        tx = match tx.checked_add(t) {
            Some(x) => x,
            None => {
                return None;
            },
        };
        i = i + 1;
    }
    Some((rx, tx))
}

/// Says whether the bytes in `/proc/net/dev` add up within 64 bits.
pub fn net_countable(dev: &str) -> (r: bool)
    ensures
        r == net_fits(dev@),
{
    match add_net(dev) {
        Some(_) => true,
        None => false,
    }
}

/// Reads the bytes received and sent from `/proc/net/dev`.
pub fn net_snapshot(dev: &str) -> (r: (u64, u64))
    requires
        net_fits(dev@),
    ensures
        (r.0 as nat, r.1 as nat) == net_view(dev@),
{
    match add_net(dev) {
        Some(p) => p,
        None => (0, 0),
    }
}

/// The time between two readings in seconds: four tenths.
pub open spec fn pause() -> u64 {
    num::pattern(false, num::nearest(4, 10))
}

/// The bytes per second between two readings.
pub open spec fn rate(first: nat, second: nat) -> u64 {
    let x = num::quotient(
        num::of_int(
            if second > first {
                second - first
            } else {
                0
            },
        ),
        pause(),
    );
    if num::less(x, 0) {
        0
    } else {
        x
    }
}

/// The bytes per second between two readings.
pub fn net_rate(first: u64, second: u64) -> (r: Num)
    ensures
        r.bits == rate(first as nat, second as nat),
{
    let moved: u64 = if second > first {
        second - first
    } else {
        0
    };
    let x = Num::of_u64(moved).over(Num::ratio(4, 10));
    if x.is_less(Num { bits: 0 }) {
        Num { bits: 0 }
    } else {
        x
    }
}

// --------------------------------------------------------------------- memory

/// The word of a line with the given number, or nothing.
pub open spec fn word(line: Seq<char>, i: int) -> Seq<char> {
    let w = text::words(line);
    if 0 <= i < w.len() {
        w[i]
    } else {
        Seq::empty()
    }
}

/// The bytes that the last of the first `n` lines under the name `k` gives, or zero.
pub open spec fn mem_to(ls: Seq<Seq<char>>, k: Seq<char>, n: int) -> nat
    decreases n,
{
    if n <= 0 {
        0
    } else if word(ls[n - 1], 0) == k {
        number(word(ls[n - 1], 1)) * 1024
    } else {
        mem_to(ls, k, n - 1)
    }
}

/// The bytes that `/proc/meminfo` gives under the name `k`, or zero.
pub open spec fn mem_at(info: Seq<char>, k: Seq<char>) -> nat {
    mem_to(text::lines(info), k, text::lines(info).len() as int)
}

/// Whether a line under the name `k` gives a number of bytes within 64 bits.
pub open spec fn mem_line_fits(line: Seq<char>, k: Seq<char>) -> bool {
    word(line, 0) == k ==> number(word(line, 1)) * 1024 <= u64::MAX
}

/// Whether the numbers of bytes that a line gives fit into 64 bits; those of the swap space count
/// where `swap` says so.
pub open spec fn line_fits(l: Seq<char>, swap: bool) -> bool {
    &&& mem_line_fits(l, "MemTotal:"@)
    &&& mem_line_fits(l, "MemAvailable:"@)
    &&& swap ==> mem_line_fits(l, "SwapTotal:"@) && mem_line_fits(l, "SwapFree:"@)
}

/// Whether the numbers of bytes in `/proc/meminfo` fit into 64 bits.
pub open spec fn mem_fits(info: Seq<char>, swap: bool) -> bool {
    forall|i: int|
        0 <= i < text::lines(info).len() ==> line_fits(#[trigger] text::lines(info)[i], swap)
}

/// `a - b`, or zero where that is negative.
pub open spec fn minus(a: nat, b: nat) -> nat {
    if a > b {
        (a - b) as nat
    } else {
        0
    }
}

/// `a - b`, or zero where that is negative.
fn monus(a: u64, b: u64) -> (r: u64)
    ensures
        r == minus(a as nat, b as nat),
{
    if a > b {
        a - b
    } else {
        0
    }
}

/// The memory in use and in all, and the swap space in use and in all.
pub open spec fn mem_view(info: Seq<char>) -> (nat, nat, nat, nat) {
    let total = mem_at(info, "MemTotal:"@);
    let swap = mem_at(info, "SwapTotal:"@);
    (
        minus(total, mem_at(info, "MemAvailable:"@)),
        total,
        minus(swap, mem_at(info, "SwapFree:"@)),
        swap,
    )
}

/// Reads the name and the number of a line.
fn read_mem_line(line: &str) -> (r: (String, u64))
    ensures
        r.0@ == word(line@, 0),
        r.1 == number(word(line@, 1)),
{
    let w = text::split_words(line);
    assert(text::texts(w@).len() == w@.len());
    let key = if w.len() > 0 {
        assert(text::texts(w@)[0] == w@[0]@);
        w[0].clone()
    } else {
        String::new()
    };
    let val: u64 = if w.len() > 1 {
        assert(text::texts(w@)[1] == w@[1]@);
        read_number(w[1].as_str())
    } else {
        0
    };
    (key, val)
}

/// Says whether the numbers of bytes in `/proc/meminfo` fit into 64 bits.
pub fn mem_countable(info: &str, swap: bool) -> (r: bool)
    ensures
        r == mem_fits(info@, swap),
{
    let ls = text::split_lines(info);
    let ghost lv = text::lines(info@);
    let mut i: usize = 0;
    assert(lv.len() == ls@.len());
    while i < ls.len()
        invariant
            i <= ls@.len(),
            lv == text::texts(ls@),
            lv == text::lines(info@),
            forall|j: int| 0 <= j < i ==> line_fits(#[trigger] lv[j], swap),
        decreases ls@.len() - i,
    {
        assert(lv[i as int] == ls@[i as int]@);
        let (k, v) = read_mem_line(ls[i].as_str());
        let key = k.as_str();
        if v > u64::MAX / 1024 && (text::same(key, "MemTotal:") || text::same(key, "MemAvailable:")
            || (swap && (text::same(key, "SwapTotal:") || text::same(key, "SwapFree:")))) {
            assert(!line_fits(lv[i as int], swap));
            return false;
        }
        i = i + 1;
    }
    true
}

/// Reads the memory in use and in all from `/proc/meminfo` and, where `swap` says so, the swap space
/// in use and in all.
pub fn meminfo(info: &str, swap: bool) -> (r: (u64, u64, u64, u64))
    requires
        mem_fits(info@, swap),
    ensures
        (r.0 as nat, r.1 as nat) == (mem_view(info@).0, mem_view(info@).1),
        swap ==> (r.2 as nat, r.3 as nat) == (mem_view(info@).2, mem_view(info@).3),
        !swap ==> r.2 == 0 && r.3 == 0,
{
    let ls = text::split_lines(info);
    let ghost lv = text::lines(info@);
    let mut total: u64 = 0;
    let mut avail: u64 = 0;
    let mut swap_total: u64 = 0;
    let mut swap_free: u64 = 0;
    let mut i: usize = 0;
    assert(lv.len() == ls@.len());
    proof {
        lemma_memory_names();
    }
    while i < ls.len()
        invariant
            i <= ls@.len(),
            lv == text::texts(ls@),
            lv == text::lines(info@),
            mem_fits(info@, swap),
            "MemTotal:"@ != "MemAvailable:"@,
            "MemTotal:"@ != "SwapTotal:"@,
            "MemTotal:"@ != "SwapFree:"@,
            "MemAvailable:"@ != "SwapTotal:"@,
            "MemAvailable:"@ != "SwapFree:"@,
            "SwapTotal:"@ != "SwapFree:"@,
            total == mem_to(lv, "MemTotal:"@, i as int),
            avail == mem_to(lv, "MemAvailable:"@, i as int),
            swap ==> swap_total == mem_to(lv, "SwapTotal:"@, i as int),
            swap ==> swap_free == mem_to(lv, "SwapFree:"@, i as int),
            !swap ==> swap_total == 0 && swap_free == 0,
        decreases ls@.len() - i,
    {
        assert(lv[i as int] == ls@[i as int]@);
        assert(line_fits(lv[i as int], swap));
        let (k, v) = read_mem_line(ls[i].as_str());
        let key = k.as_str();
        if text::same(key, "MemTotal:") {
            total = v * 1024;
        } else if text::same(key, "MemAvailable:") {
            avail = v * 1024;
        } else if swap && text::same(key, "SwapTotal:") {
            swap_total = v * 1024;
        } else if swap && text::same(key, "SwapFree:") {
            swap_free = v * 1024;
        }
        i = i + 1;
    }
    (monus(total, avail), total, monus(swap_total, swap_free), swap_total)
}

proof fn lemma_memory_names()
    ensures
        "MemTotal:"@ != "MemAvailable:"@,
        "MemTotal:"@ != "SwapTotal:"@,
        "MemTotal:"@ != "SwapFree:"@,
        "MemAvailable:"@ != "SwapTotal:"@,
        "MemAvailable:"@ != "SwapFree:"@,
        "SwapTotal:"@ != "SwapFree:"@,
{
    reveal_strlit("MemTotal:");
    reveal_strlit("MemAvailable:");
    reveal_strlit("SwapTotal:");
    reveal_strlit("SwapFree:");
    assert("MemTotal:"@[0] != "SwapFree:"@[0]);
    assert("MemTotal:"@.len() == 9);
    assert("MemAvailable:"@.len() == 13);
    assert("SwapTotal:"@.len() == 10);
    assert("SwapFree:"@.len() == 9);
}

// ----------------------------------------------------------------------- disk

/// The bytes in use and in all of the disk, from the lines of `df` from `i` on: the first line with
/// enough words and, where `sized` says so, a size above zero.
pub open spec fn disk_from(ls: Seq<Seq<char>>, i: int, sized: bool) -> (nat, nat)
    decreases ls.len() - i,
{
    if i >= ls.len() {
        (0, 0)
    } else {
        let w = text::words(ls[i]);
        if w.len() >= 3 && (!sized || number(w[1]) > 0) {
            (number(w[2]), number(w[1]))
        } else {
            disk_from(ls, i + 1, sized)
        }
    }
}

/// The bytes in use and in all of the disk, from what `df` printed.
pub open spec fn disk_view(out: Seq<u8>, sized: bool) -> (nat, nat) {
    disk_from(text::lines(bytes::text_of(out)), 1, sized)
}

/// Reads the bytes in use and in all of the disk from what `df` printed.
pub fn disk_usage(out: &Vec<u8>, sized: bool) -> (r: (u64, u64))
    ensures
        (r.0 as nat, r.1 as nat) == disk_view(out@, sized),
{
    let s = bytes::lossy(out);
    let ls = text::split_lines(s.as_str());
    let ghost lv = text::lines(bytes::text_of(out@));
    let mut i: usize = 1;
    assert(lv.len() == ls@.len());
    while i < ls.len()
        invariant
            lv == text::texts(ls@),
            lv == text::lines(bytes::text_of(out@)),
            disk_from(lv, 1, sized) == disk_from(lv, i as int, sized),
        decreases ls@.len() - i,
    {
        assert(lv[i as int] == ls@[i as int]@);
        let w = text::split_words(ls[i].as_str());
        assert(text::texts(w@).len() == w@.len());
        if w.len() >= 3 {
            assert(text::texts(w@)[1] == w@[1]@);
            assert(text::texts(w@)[2] == w@[2]@);
            let total = read_number(w[1].as_str());
            let used = read_number(w[2].as_str());
            if !sized || total > 0 {
                return (used, total);
            }
        }
        i = i + 1;
    }
    (0, 0)
}

// ------------------------------------------------------------- name of the system

/// The name of a Linux system: what the file that names it, or else the greeting, says under
/// `PRETTY_NAME`, or else `Linux` and the type of the kernel.
pub open spec fn os_view(release: Seq<char>, issue: Seq<char>, kind: Seq<char>) -> Seq<char> {
    let ls = text::lines(
        if release.len() == 0 {
            issue
        } else {
            release
        },
    );
    let i = text::first_beginning(ls, "PRETTY_NAME="@, 0);
    if 0 <= i < ls.len() {
        let v = text::trimmed(ls[i].skip("PRETTY_NAME="@.len() as int));
        text::strip_end(text::strip_start(v, seq!['"']), seq!['"'])
    } else {
        text::trimmed("Linux "@ + text::trimmed(kind))
    }
}

/// Reads the name of a Linux system.
pub fn os_name(release: &str, issue: &str, kind: &str) -> (r: String)
    ensures
        r@ == os_view(release@, issue@, kind@),
{
    let ls = if release.unicode_len() == 0 {
        text::split_lines(issue)
    } else {
        text::split_lines(release)
    };
    match text::find_beginning(&ls, "PRETTY_NAME=") {
        Some(i) => {
            assert(text::texts(ls@)[i as int] == ls@[i as int]@);
            proof {
                text::lemma_first_beginning(text::texts(ls@), "PRETTY_NAME="@, 0);
                reveal_strlit("\"");
                assert("\""@ =~= seq!['"']);
            }
            match text::strip_prefix(ls[i].as_str(), "PRETTY_NAME=") {
                Some(v) => text::trim_end_of(
                    text::trim_start_of(text::trim(v.as_str()).as_str(), "\"").as_str(),
                    "\"",
                ),
                None => String::new(),
            }
        },
        None => {
            let mut s = "Linux ".to_string();
            text::put(&mut s, text::trim(kind).as_str());
            text::trim(s.as_str())
        },
    }
}

// ------------------------------------------------------------- load and uptime

/// The doubles among the texts from `i` up to `n`.
pub open spec fn doubles(w: Seq<Seq<char>>, i: int, n: int) -> Seq<u64>
    decreases n - i,
{
    if i >= n {
        Seq::empty()
    } else {
        match numeral::number_text(w[i]) {
            Some(x) => seq![x] + doubles(w, i + 1, n),
            None => doubles(w, i + 1, n),
        }
    }
}

/// The number at a place, or zero.
pub open spec fn double_at(v: Seq<u64>, i: int) -> u64 {
    if 0 <= i < v.len() {
        v[i]
    } else {
        0
    }
}

/// The load over one, five and fifteen minutes: the numbers among the first three words.
pub open spec fn load_view(s: Seq<char>) -> (u64, u64, u64) {
    let w = text::words(s);
    let v = doubles(
        w,
        0,
        if w.len() < 3 {
            w.len() as int
        } else {
            3
        },
    );
    (double_at(v, 0), double_at(v, 1), double_at(v, 2))
}

/// Doubles as their patterns.
pub open spec fn patterns(v: Seq<Num>) -> Seq<u64> {
    v.map_values(|x: Num| x.bits)
}

/// Reads the load from `/proc/loadavg`.
pub fn load_average(s: &str) -> (r: (Num, Num, Num))
    ensures
        (r.0.bits, r.1.bits, r.2.bits) == load_view(s@),
{
    let w = text::split_words(s);
    let ghost ws = text::words(s@);
    assert(ws.len() == w@.len());
    let n: usize = if w.len() < 3 {
        w.len()
    } else {
        3
    };
    let mut v: Vec<Num> = Vec::new();
    let mut i: usize = 0;
    assert(patterns(v@) =~= Seq::<u64>::empty());
    assert(Seq::<u64>::empty() + doubles(ws, 0, n as int) =~= doubles(ws, 0, n as int));
    while i < n
        invariant
            i <= n <= w@.len(),
            ws == text::texts(w@),
            patterns(v@) + doubles(ws, i as int, n as int) == doubles(ws, 0, n as int),
        decreases n - i,
    {
        let ghost was = patterns(v@);
        assert(ws[i as int] == w@[i as int]@);
        if let Some(x) = Num::read(w[i].as_str()) {
            v.push(x);
            assert(patterns(v@) =~= was.push(x.bits));
            assert(patterns(v@) + doubles(ws, i + 1, n as int) =~= was + (seq![x.bits] + doubles(
                ws,
                i + 1,
                n as int,
            )));
        }
        i = i + 1;
    }
    assert(patterns(v@) + Seq::<u64>::empty() =~= patterns(v@));
    (pick(&v, 0), pick(&v, 1), pick(&v, 2))
}

/// The number at a place, or zero.
fn pick(v: &Vec<Num>, i: usize) -> (r: Num)
    ensures
        r.bits == double_at(patterns(v@), i as int),
{
    if i < v.len() {
        v[i]
    } else {
        Num { bits: 0 }
    }
}

/// The seconds since the start of the system: the first word, without its fraction.
pub open spec fn uptime_view(s: Seq<char>) -> nat {
    let w = text::words(s);
    if w.len() > 0 {
        match numeral::number_text(w[0]) {
            Some(x) => num::to_nat(x),
            None => 0,
        }
    } else {
        0
    }
}

/// Reads the seconds since the start of the system from `/proc/uptime`.
pub fn uptime(s: &str) -> (r: u64)
    ensures
        r == uptime_view(s@),
{
    let w = text::split_words(s);
    assert(text::texts(w@).len() == w@.len());
    if w.len() > 0 {
        assert(text::texts(w@)[0] == w@[0]@);
        match Num::read(w[0].as_str()) {
            Some(x) => x.to_u64(),
            None => 0,
        }
    } else {
        0
    }
}

// ------------------------------------------------------------------ collection

/// What a Linux system says of itself: the contents of files, where they can be read, with the
/// processor's times and the network's counters twice, and what `df` printed.
#[derive(Debug)]
pub struct Readings {
    pub stat: [Option<String>; 2],
    pub dev: [Option<String>; 2],
    pub meminfo: Option<String>,
    pub df: Option<Vec<u8>>,
    pub loadavg: Option<String>,
    pub uptime: Option<String>,
    pub os_release: Option<String>,
    pub issue: Option<String>,
    pub ostype: Option<String>,
    pub cores: u32,
    /// The probed endpoints, and whether each answered.
    pub ports: Vec<(String, bool)>,
}

/// A text, or none as the empty one.
pub open spec fn or_empty(s: Option<String>) -> Seq<char> {
    match s {
        Some(t) => t@,
        None => Seq::empty(),
    }
}

/// The time in all and the idle time, or zeros.
pub open spec fn cpu_or_zero(s: Option<String>) -> (nat, nat) {
    match s {
        Some(t) => match cpu_view(t@) {
            Some(p) => p,
            None => (0, 0),
        },
        None => (0, 0),
    }
}

/// The bytes received and sent, or zeros.
pub open spec fn net_or_zero(s: Option<String>) -> (nat, nat) {
    match s {
        Some(t) => net_view(t@),
        None => (0, 0),
    }
}

/// The memory, or zeros.
pub open spec fn mem_or_zero(s: Option<String>) -> (nat, nat, nat, nat) {
    match s {
        Some(t) => mem_view(t@),
        None => (0, 0, 0, 0),
    }
}

/// The disk, or zeros.
pub open spec fn disk_or_zero(out: Option<Vec<u8>>, sized: bool) -> (nat, nat) {
    match out {
        Some(b) => disk_view(b@, sized),
        None => (0, 0),
    }
}

/// The load, or zeros.
pub open spec fn load_or_zero(s: Option<String>) -> (u64, u64, u64) {
    match s {
        Some(t) => load_view(t@),
        None => (0, 0, 0),
    }
}

/// The seconds since the start, or zero.
pub open spec fn uptime_or_zero(s: Option<String>) -> nat {
    match s {
        Some(t) => uptime_view(t@),
        None => 0,
    }
}

impl Readings {
    /// Whether the times, the counters and the numbers of bytes add up within 64 bits.
    pub open spec fn fits(&self) -> bool {
        &&& self.stat[0] matches Some(s) ==> cpu_fits(s@)
        &&& self.stat[1] matches Some(s) ==> cpu_fits(s@)
        &&& self.dev[0] matches Some(s) ==> net_fits(s@)
        &&& self.dev[1] matches Some(s) ==> net_fits(s@)
        &&& self.meminfo matches Some(s) ==> mem_fits(s@, true)
    }

    /// Says whether the times, the counters and the numbers of bytes add up within 64 bits.
    pub fn countable(&self) -> (r: bool)
        ensures
            r == self.fits(),
    {
        if let Some(s) = &self.stat[0] {
            if !cpu_countable(s.as_str()) {
                return false;
            }
        }
        if let Some(s) = &self.stat[1] {
            if !cpu_countable(s.as_str()) {
                return false;
            }
        }
        if let Some(s) = &self.dev[0] {
            if !net_countable(s.as_str()) {
                return false;
            }
        }
        if let Some(s) = &self.dev[1] {
            if !net_countable(s.as_str()) {
                return false;
            }
        }
        if let Some(s) = &self.meminfo {
            if !mem_countable(s.as_str(), true) {
                return false;
            }
        }
        true
    }
}

fn cpu_of(s: &Option<String>) -> (r: (u64, u64))
    requires
        s matches Some(t) ==> cpu_fits(t@),
    ensures
        (r.0 as nat, r.1 as nat) == cpu_or_zero(*s),
{
    match s {
        Some(t) => match cpu_snapshot(t.as_str()) {
            Some(p) => p,
            None => (0, 0),
        },
        None => (0, 0),
    }
}

fn net_of(s: &Option<String>) -> (r: (u64, u64))
    requires
        s matches Some(t) ==> net_fits(t@),
    ensures
        (r.0 as nat, r.1 as nat) == net_or_zero(*s),
{
    match s {
        Some(t) => net_snapshot(t.as_str()),
        None => (0, 0),
    }
}

fn or_nothing(s: &Option<String>) -> (r: String)
    ensures
        r@ == or_empty(*s),
{
    match s {
        Some(t) => t.clone(),
        None => String::new(),
    }
}

/// Whether a state is the one that a Linux system says of itself.
pub open spec fn collected(r: Readings, m: Metrics) -> bool {
    &&& m.cpu_percent.bits == cpu_use(
        cpu_or_zero(r.stat[0]).0,
        cpu_or_zero(r.stat[0]).1,
        cpu_or_zero(r.stat[1]).0,
        cpu_or_zero(r.stat[1]).1,
    )
    &&& m.cores == r.cores
    &&& (m.mem_used as nat, m.mem_total as nat, m.swap_used as nat, m.swap_total as nat)
        == mem_or_zero(r.meminfo)
    &&& (m.load1.bits, m.load5.bits, m.load15.bits) == load_or_zero(r.loadavg)
    &&& m.uptime_secs == uptime_or_zero(r.uptime)
    &&& m.net_rx_rate.bits == rate(net_or_zero(r.dev[0]).0, net_or_zero(r.dev[1]).0)
    &&& m.net_tx_rate.bits == rate(net_or_zero(r.dev[0]).1, net_or_zero(r.dev[1]).1)
    &&& (m.disk_used as nat, m.disk_total as nat) == disk_or_zero(r.df, true)
    &&& m.os@ == os_view(or_empty(r.os_release), or_empty(r.issue), or_empty(r.ostype))
}

/// Works out the state of a Linux system from what it says of itself.
pub fn collect(r: &Readings) -> (m: Metrics)
    requires
        r.fits(),
    ensures
        m.cpu_percent.bits == cpu_use(
            cpu_or_zero(r.stat[0]).0,
            cpu_or_zero(r.stat[0]).1,
            cpu_or_zero(r.stat[1]).0,
            cpu_or_zero(r.stat[1]).1,
        ),
        m.cores == r.cores,
        (m.mem_used as nat, m.mem_total as nat, m.swap_used as nat, m.swap_total as nat)
            == mem_or_zero(r.meminfo),
        (m.load1.bits, m.load5.bits, m.load15.bits) == load_or_zero(r.loadavg),
        m.uptime_secs == uptime_or_zero(r.uptime),
        m.net_rx_rate.bits == rate(net_or_zero(r.dev[0]).0, net_or_zero(r.dev[1]).0),
        m.net_tx_rate.bits == rate(net_or_zero(r.dev[0]).1, net_or_zero(r.dev[1]).1),
        (m.disk_used as nat, m.disk_total as nat) == disk_or_zero(r.df, true),
        m.os@ == os_view(or_empty(r.os_release), or_empty(r.issue), or_empty(r.ostype)),
        table::distinct(m.ports@),
        forall|k: Seq<char>| #[trigger]
            table::lookup(m.ports@, k) == table::recent(r.ports@, k),
        collected(*r, m),
{
    let first = cpu_of(&r.stat[0]);
    let second = cpu_of(&r.stat[1]);
    let (rx1, tx1) = net_of(&r.dev[0]);
    let (rx2, tx2) = net_of(&r.dev[1]);
    let (mem_used, mem_total, swap_used, swap_total) = match &r.meminfo {
        Some(s) => meminfo(s.as_str(), true),
        None => (0, 0, 0, 0),
    };
    let (disk_used, disk_total) = match &r.df {
        Some(b) => disk_usage(b, true),
        None => (0, 0),
    };
    let (load1, load5, load15) = match &r.loadavg {
        Some(s) => load_average(s.as_str()),
        None => (Num { bits: 0 }, Num { bits: 0 }, Num { bits: 0 }),
    };
    let uptime_secs: u64 = match &r.uptime {
        Some(s) => uptime(s.as_str()),
        None => 0,
    };
    let os = os_name(
        or_nothing(&r.os_release).as_str(),
        or_nothing(&r.issue).as_str(),
        or_nothing(&r.ostype).as_str(),
    );
    Metrics {
        cpu_percent: cpu_percent(first, second),
        cores: r.cores,
        mem_used,
        mem_total,
        swap_used,
        swap_total,
        load1,
        load5,
        load15,
        uptime_secs,
        net_rx_rate: net_rate(rx1, rx2),
        net_tx_rate: net_rate(tx1, tx2),
        disk_used,
        disk_total,
        os,
        ports: table::gather(&r.ports),
    }
}

// ------------------------------------------------------------ other systems

/// What a tool of another system printed about the memory: `wmic` its sizes in kilobytes, `sysctl`
/// the size in bytes; or that there is no such tool.
#[derive(Debug)]
pub enum MemoryTool {
    Wmic(Vec<u8>),
    Sysctl(Vec<u8>),
    Missing,
}

/// The number that the last of the first `n` lines with the prefix `p` gives, or zero.
pub open spec fn setting_to(ls: Seq<Seq<char>>, p: Seq<char>, n: int) -> nat
    decreases n,
{
    if n <= 0 {
        0
    } else {
        match text::after(ls[n - 1], p) {
            Some(v) => number(text::trimmed(v)),
            None => setting_to(ls, p, n - 1),
        }
    }
}

/// The number that what `wmic` printed gives for a setting, or zero.
pub open spec fn setting(out: Seq<u8>, p: Seq<char>) -> nat {
    let ls = text::lines(bytes::text_of(out));
    setting_to(ls, p, ls.len() as int)
}

/// The memory in use and in all, by a tool.
pub open spec fn tool_memory(t: MemoryTool) -> (nat, nat) {
    match t {
        MemoryTool::Wmic(out) => {
            let total = setting(out@, "TotalVisibleMemorySize="@);
            let free = setting(out@, "FreePhysicalMemory="@);
            (minus(total, free) * 1024, total * 1024)
        },
        MemoryTool::Sysctl(out) => (0, number(text::trimmed(bytes::text_of(out@)))),
        MemoryTool::Missing => (0, 0),
    }
}

/// Whether the memory by a tool fits into 64 bits.
pub open spec fn tool_fits(t: MemoryTool) -> bool {
    tool_memory(t).1 <= u64::MAX
}

/// Reads a setting from the lines that `wmic` printed.
fn read_setting(ls: &Vec<String>, p: &str) -> (r: u64)
    ensures
        r == setting_to(text::texts(ls@), p@, ls@.len() as int),
{
    let ghost lv = text::texts(ls@);
    let mut v: u64 = 0;
    let mut i: usize = 0;
    while i < ls.len()
        invariant
            i <= ls@.len(),
            lv == text::texts(ls@),
            v == setting_to(lv, p@, i as int),
        decreases ls@.len() - i,
    {
        assert(lv[i as int] == ls@[i as int]@);
        if let Some(t) = text::strip_prefix(ls[i].as_str(), p) {
            v = read_number(text::trim(t.as_str()).as_str());
        }
        i = i + 1;
    }
    v
}

/// Reads the sizes in kilobytes that `wmic` printed: in all, and free.
fn read_wmic(out: &Vec<u8>) -> (r: (u64, u64))
    ensures
        r.0 == setting(out@, "TotalVisibleMemorySize="@),
        r.1 == setting(out@, "FreePhysicalMemory="@),
{
    let s = bytes::lossy(out);
    let ls = text::split_lines(s.as_str());
    assert(text::texts(ls@).len() == ls@.len());
    (read_setting(&ls, "TotalVisibleMemorySize="), read_setting(&ls, "FreePhysicalMemory="))
}

impl MemoryTool {
    /// Says whether the memory fits into 64 bits.
    pub fn countable(&self) -> (r: bool)
        ensures
            r == tool_fits(*self),
    {
        match self {
            MemoryTool::Wmic(out) => read_wmic(out).0 <= u64::MAX / 1024,
            _ => true,
        }
    }

    /// Reads the memory in use and in all.
    pub fn memory(&self) -> (r: (u64, u64))
        requires
            tool_fits(*self),
        ensures
            (r.0 as nat, r.1 as nat) == tool_memory(*self),
    {
        match self {
            MemoryTool::Wmic(out) => {
                let (total, free) = read_wmic(out);
                (monus(total, free) * 1024, total * 1024)
            },
            MemoryTool::Sysctl(out) => {
                let s = bytes::lossy(out);
                (0, read_number(text::trim(s.as_str()).as_str()))
            },
            MemoryTool::Missing => (0, 0),
        }
    }
}

/// The processor's use that `wmic` printed, or zero.
pub open spec fn tool_cpu(out: Option<Vec<u8>>) -> u64 {
    match out {
        None => 0,
        Some(b) => {
            let ls = text::lines(bytes::text_of(b@));
            let i = text::first_beginning(ls, "LoadPercentage="@, 0);
            if 0 <= i < ls.len() {
                match numeral::number_text(
                    text::trimmed(ls[i].skip("LoadPercentage="@.len() as int)),
                ) {
                    Some(x) => x,
                    None => 0,
                }
            } else {
                0
            }
        },
    }
}

/// Reads the processor's use that `wmic` printed.
pub fn cpu_fallback(out: &Option<Vec<u8>>) -> (r: Num)
    ensures
        r.bits == tool_cpu(*out),
{
    match out {
        None => Num { bits: 0 },
        Some(b) => {
            let s = bytes::lossy(b);
            let ls = text::split_lines(s.as_str());
            match text::find_beginning(&ls, "LoadPercentage=") {
                Some(i) => {
                    assert(text::texts(ls@)[i as int] == ls@[i as int]@);
                    proof {
                        text::lemma_first_beginning(text::texts(ls@), "LoadPercentage="@, 0);
                    }
                    match text::strip_prefix(ls[i].as_str(), "LoadPercentage=") {
                        Some(v) => match Num::read(text::trim(v.as_str()).as_str()) {
                            Some(x) => x,
                            None => Num { bits: 0 },
                        },
                        None => Num { bits: 0 },
                    }
                },
                None => Num { bits: 0 },
            }
        },
    }
}

/// What a system other than Linux says of itself: `/proc/meminfo` where it has one, what tools
/// printed, and its names.
#[derive(Debug)]
pub struct OtherReadings {
    pub meminfo: Option<String>,
    pub memory: MemoryTool,
    pub df: Option<Vec<u8>>,
    pub cpu: Option<Vec<u8>>,
    pub os: String,
    pub arch: String,
    pub cores: u32,
    /// The probed endpoints, and whether each answered.
    pub ports: Vec<(String, bool)>,
}

/// The memory in use and in all: by `/proc/meminfo` where that gives a size, else by the tool.
pub open spec fn other_memory(info: Option<String>, tool: MemoryTool) -> (nat, nat) {
    let m = mem_or_zero(info);
    if m.1 > 0 {
        (m.0, m.1)
    } else {
        tool_memory(tool)
    }
}

impl OtherReadings {
    /// Whether the numbers of bytes fit into 64 bits.
    pub open spec fn fits(&self) -> bool {
        &&& self.meminfo matches Some(s) ==> mem_fits(s@, false)
        &&& mem_or_zero(self.meminfo).1 == 0 ==> tool_fits(self.memory)
    }

    /// Says whether the numbers of bytes fit into 64 bits.
    pub fn countable(&self) -> (r: bool)
        ensures
            r == self.fits(),
    {
        let total: u64 = match &self.meminfo {
            Some(s) => {
                if !mem_countable(s.as_str(), false) {
                    return false;
                }
                meminfo(s.as_str(), false).1
            },
            None => 0,
        };
        total > 0 || self.memory.countable()
    }
}

/// Works out the state of a system other than Linux.
pub fn collect_elsewhere(r: &OtherReadings) -> (m: Metrics)
    requires
        r.fits(),
    ensures
        m.cpu_percent.bits == tool_cpu(r.cpu),
        m.cores == r.cores,
        (m.mem_used as nat, m.mem_total as nat) == other_memory(r.meminfo, r.memory),
        m.swap_used == 0 && m.swap_total == 0,
        m.load1.bits == 0 && m.load5.bits == 0 && m.load15.bits == 0,
        m.uptime_secs == 0,
        m.net_rx_rate.bits == 0 && m.net_tx_rate.bits == 0,
        (m.disk_used as nat, m.disk_total as nat) == disk_or_zero(r.df, false),
        m.os@ == r.os@ + " "@ + r.arch@,
        table::distinct(m.ports@),
        forall|k: Seq<char>| #[trigger]
            table::lookup(m.ports@, k) == table::recent(r.ports@, k),
{
    let (mut mem_used, mut mem_total): (u64, u64) = match &r.meminfo {
        Some(s) => {
            let p = meminfo(s.as_str(), false);
            (p.0, p.1)
        },
        None => (0, 0),
    };
    if mem_total == 0 {
        let (used, total) = r.memory.memory();
        mem_used = used;
        mem_total = total;
    }
    let (disk_used, disk_total) = match &r.df {
        Some(b) => disk_usage(b, false),
        None => (0, 0),
    };
    let mut os = r.os.clone();
    text::put(&mut os, " ");
    text::put(&mut os, r.arch.as_str());
    let zero = Num { bits: 0 };
    Metrics {
        cpu_percent: cpu_fallback(&r.cpu),
        cores: r.cores,
        mem_used,
        mem_total,
        swap_used: 0,
        swap_total: 0,
        load1: zero,
        load5: zero,
        load15: zero,
        uptime_secs: 0,
        net_rx_rate: zero,
        net_tx_rate: zero,
        disk_used,
        disk_total,
        os,
        ports: table::gather(&r.ports),
    }
}

} // verus!
