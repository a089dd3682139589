//! The scheduler's decisions between the calls it makes outside: when to
//! poll, which fired keys to forget, which due flyby comes next, what the
//! last check before a flyby decides, and the query a flyby opens with.

use vstd::prelude::*;
use crate::scheduler::{
    contains_string, event_key, keys_view, percent_encode, percent_encoded, rebuild_queue, rebuilt_queue, FlybyJob,
    FlybyQueue, JobView,
};
use crate::calendar::{tidied_title, tidy_title, CalEvent};
use crate::service::EventValidity;
use crate::text::{
    alnum_only, chars_of, concat_chars, decimal, digit_char, digits_of, keep_ascii_alnum, same_text, string_of, trim,
    trim_chars,
};
use vstd::utf8::encode_utf8;

verus! {

/// Seconds between two regular polls.
pub const POLL_INTERVAL: i64 = 300;

/// A request for an early poll, and for waking the loop at once. Any burst
/// of requests is consumed by a single poll.
#[derive(Debug, Clone, Copy)]
pub struct PollSignal {
    pub forced: bool,
    pub wake: bool,
}

/// The signal after a request for a poll.
pub open spec fn requested(s: PollSignal) -> PollSignal {
    PollSignal { forced: true, wake: s.wake }
}

/// The signal after `n` requests for a poll.
pub open spec fn requested_times(s: PollSignal, n: nat) -> PollSignal
    decreases n,
{
    if n == 0 {
        s
    } else {
        requested(requested_times(s, (n - 1) as nat))
    }
}

/// What the loop reads of the signal, and the signal after reading it.
pub open spec fn taken(s: PollSignal) -> (bool, PollSignal) {
    (s.forced, PollSignal { forced: false, wake: s.wake })
}

impl PollSignal {
    /// No request pending.
    pub fn new() -> (s: PollSignal)
        ensures
            !s.forced,
            !s.wake,
    {
        PollSignal { forced: false, wake: false }
    }

    /// Asks for a poll on the next tick.
    pub fn request_poll(&mut self)
        ensures
            *final(self) == requested(*old(self)),
    {
        self.forced = true;
    }

    /// Asks for a poll and for waking the loop now.
    pub fn request_poll_now(&mut self)
        ensures
            final(self).forced,
            final(self).wake,
    {
        self.request_poll();
        self.wake = true;
    }

    /// Consumes the poll request: whether one was pending.
    pub fn take_poll(&mut self) -> (b: bool)
        ensures
            (b, *final(self)) == taken(*old(self)),
    {
        let b = self.forced;
        self.forced = false;
        b
    }

    /// Consumes the wake request: whether one was pending.
    pub fn take_wake(&mut self) -> (b: bool)
        ensures
            b == old(self).wake,
            !final(self).wake,
            final(self).forced == old(self).forced,
    {
        let b = self.wake;
        self.wake = false;
        b
    }
}

/// A burst of poll requests is consumed by one poll: after any number of
/// requests the first read finds one pending and the next read none.
pub proof fn poll_requests_coalesce(s: PollSignal, n: nat)
    requires
        n >= 1,
    ensures
        taken(requested_times(s, n)).0,
        !taken(taken(requested_times(s, n)).1).0,
{
}

/// The time of the last poll and whether to poll now. A clock set back
/// (manual change, NTP) resets the last poll so that polling goes on.
pub open spec fn poll_decision(last_poll: i64, now: i64, forced: bool) -> (i64, bool) {
    let lp: i64 = if now < last_poll { 0 } else { last_poll };
    if forced || now - lp >= POLL_INTERVAL {
        (now, true)
    } else {
        (lp, false)
    }
}

/// Whether to poll at `now`, and the new time of the last poll.
pub fn poll_due(last_poll: i64, now: i64, forced: bool) -> (r: (i64, bool))
    ensures
        r == poll_decision(last_poll, now, forced),
{
    let lp: i64 = if now < last_poll { 0 } else { last_poll };
    if forced || (now as i128) - (lp as i128) >= POLL_INTERVAL as i128 {
        (now, true)
    } else {
        (lp, false)
    }
}

/// A poll comes when asked for or once the interval has passed, and then
/// becomes the last poll; a clock set back never blocks polling for longer
/// than the interval counted from zero.
pub proof fn polling_never_stalls(last_poll: i64, now: i64, forced: bool)
    ensures
        forced ==> poll_decision(last_poll, now, forced) == (now, true),
        last_poll <= now && now - last_poll >= POLL_INTERVAL ==> poll_decision(last_poll, now, forced).1,
        now < last_poll ==> poll_decision(last_poll, now, forced).1 == (forced || now >= POLL_INTERVAL),
        poll_decision(last_poll, now, forced).1 ==> poll_decision(last_poll, now, forced).0 == now,
{
}

/// Longest lead time honoured, in minutes: a hand-edited setting of 99999
/// would otherwise fly all of today's meetings at once.
pub const MAX_LEAD_MINUTES: u32 = 60;

pub open spec fn lead_of(minutes_before: u32) -> i64 {
    ((if minutes_before <= MAX_LEAD_MINUTES { minutes_before } else { MAX_LEAD_MINUTES }) * 60) as i64
}

/// The lead time in seconds: the setting clamped to an hour.
pub fn lead_seconds(minutes_before: u32) -> (l: i64)
    ensures
        l == lead_of(minutes_before),
        0 <= l <= 3600,
{
    let m: u32 = if minutes_before <= MAX_LEAD_MINUTES { minutes_before } else { MAX_LEAD_MINUTES };
    (m as i64) * 60
}

/// Is the user's mute still on at `now`?
pub fn is_muted(mute_until: Option<i64>, now: i64) -> (b: bool)
    ensures
        b == (mute_until matches Some(t) && t > now),
{
    match mute_until {
        Some(t) => t > now,
        None => false,
    }
}

} // verus!

verus! {

/// The part of `s` after its last `c` (all of `s` without one), as
/// `s.rsplit(c).next()` gives it.
pub open spec fn after_last(s: Seq<char>, c: char) -> Seq<char>
    decreases s.len(),
{
    if s.len() == 0 {
        s
    } else if s.last() == c {
        Seq::empty()
    } else {
        after_last(s.drop_last(), c).push(s.last())
    }
}

pub open spec fn is_digit(c: char) -> bool {
    '0' <= c && c <= '9'
}

pub open spec fn all_digits(d: Seq<char>) -> bool {
    forall|i: int| 0 <= i < d.len() ==> is_digit(#[trigger] d[i])
}

/// The value of a run of decimal digits.
pub open spec fn digits_value(d: Seq<char>) -> int
    decreases d.len(),
{
    if d.len() == 0 {
        0
    } else {
        digits_value(d.drop_last()) * 10 + (d.last() as int - '0' as int)
    }
}

/// `str::parse::<i64>`: an optional `+` or `-`, then at least one decimal
/// digit and nothing else, the value in range.
pub open spec fn parse_i64(s: Seq<char>) -> Option<i64> {
    let neg = s.len() > 0 && s[0] == '-';
    let d = if s.len() > 0 && (s[0] == '-' || s[0] == '+') { s.skip(1) } else { s };
    if d.len() == 0 || !all_digits(d) {
        None
    } else {
        let v = if neg { -digits_value(d) } else { digits_value(d) };
        if i64::MIN <= v <= i64::MAX {
            Some(v as i64)
        } else {
            None
        }
    }
}

proof fn lemma_digits_value_grows(d: Seq<char>, i: int)
    requires
        all_digits(d),
        0 <= i <= d.len(),
    ensures
        0 <= digits_value(d.take(i)) <= digits_value(d),
    decreases d.len(),
{
    if d.len() > 0 {
        if i == d.len() {
            assert(d.take(i) =~= d);
            lemma_digits_value_grows(d.drop_last(), i - 1);
            assert(d.drop_last().take(i - 1) =~= d.drop_last());
        } else {
            lemma_digits_value_grows(d.drop_last(), i);
            assert(d.drop_last().take(i) =~= d.take(i));
        }
        assert(digits_value(d.drop_last()) >= 0) by {
            lemma_digits_value_grows(d.drop_last(), 0);
        }
    }
}

fn digit_of(c: char) -> (v: i128)
    requires
        is_digit(c),
    ensures
        v == c as int - '0' as int,
        0 <= v <= 9,
{
    if c == '0' { 0 }
    else if c == '1' { 1 }
    else if c == '2' { 2 }
    else if c == '3' { 3 }
    else if c == '4' { 4 }
    else if c == '5' { 5 }
    else if c == '6' { 6 }
    else if c == '7' { 7 }
    else if c == '8' { 8 }
    else { 9 }
}

/// `s.parse::<i64>().ok()`.
pub fn parse_int(s: &Vec<char>) -> (r: Option<i64>)
    ensures
        r == parse_i64(s@),
{
    let n = s.len();
    if n == 0 {
        return None;
    }
    let neg = s[0] == '-';
    let start: usize = if s[0] == '-' || s[0] == '+' { 1 } else { 0 };
    let ghost d = if s@.len() > 0 && (s@[0] == '-' || s@[0] == '+') { s@.skip(1) } else { s@ };
    assert(d =~= s@.skip(start as int));
    if start == n {
        return None;
    }
    let limit: i128 = 9223372036854775808;
    let mut v: i128 = 0;
    let mut i: usize = start;
    while i < n
        invariant
            start <= i <= n,
            start < n,
            n == s@.len(),
            d == s@.skip(start as int),
            d == (if s@.len() > 0 && (s@[0] == '-' || s@[0] == '+') { s@.skip(1) } else { s@ }),
            neg == (s@.len() > 0 && s@[0] == '-'),
            all_digits(d.take(i - start)),
            v == digits_value(d.take(i - start)),
            0 <= v <= limit,
            limit == 9223372036854775808,
        decreases n - i,
    {
        let c = s[i];
        if !('0' <= c && c <= '9') {
            assert(d[i - start] == c);
            assert(!is_digit(d[i - start]));
            return None;
        }
        let dv = digit_of(c);
        proof {
            assert(d.take(i + 1 - start).drop_last() =~= d.take(i - start));
            assert(d.take(i + 1 - start).last() == c);
            assert(digits_value(d.take(i + 1 - start)) == digits_value(d.take(i - start)) * 10 + dv);
        }
        v = v * 10 + dv;
        i += 1;
        assert(v == digits_value(d.take(i - start)));
        assert(all_digits(d.take(i - start))) by {
            assert forall|k: int| 0 <= k < d.take(i - start).len() implies is_digit(#[trigger] d.take(i - start)[k]) by {
                if k < i - 1 - start {
                    assert(d.take(i - start)[k] == d.take(i - 1 - start)[k]);
                }
            }
        }
        if v > limit {
            proof {
                // the value only grows with more digits, so it stays out of range
                if all_digits(d) {
                    lemma_digits_value_grows(d, i - start);
                }
            }
            return None;
        }
    }
    assert(d.take(n - start) =~= d);
    if neg {
        Some((0 - v) as i64)
    } else if v <= 9223372036854775807 {
        Some(v as i64)
    } else {
        None
    }
}

/// The last piece of `s` after `c`, as characters.
pub fn after_last_chars(s: &Vec<char>, c: char) -> (r: Vec<char>)
    ensures
        r@ == after_last(s@, c),
{
    let mut i = s.len();
    assert(s@.take(i as int) =~= s@);
    assert(s@.skip(i as int) =~= Seq::<char>::empty());
    assert(after_last(s@, c) =~= after_last(s@, c) + Seq::<char>::empty());
    while i > 0 && s[i - 1] != c
        invariant
            i <= s.len(),
            after_last(s@, c) == after_last(s@.take(i as int), c) + s@.skip(i as int),
        decreases i,
    {
        proof {
            let t = s@.take(i as int);
            assert(t.drop_last() =~= s@.take(i - 1));
            assert(s@.skip(i - 1) =~= seq![t.last()] + s@.skip(i as int));
            assert(after_last(t, c) == after_last(s@.take(i - 1), c).push(t.last()));
            assert(after_last(s@.take(i - 1), c).push(t.last()) + s@.skip(i as int)
                =~= after_last(s@.take(i - 1), c) + s@.skip(i - 1));
        }
        i -= 1;
    }
    proof {
        if i > 0 {
            assert(s@.take(i as int).last() == c);
        } else {
            assert(s@.take(0) =~= Seq::<char>::empty());
        }
        assert(after_last(s@.take(i as int), c) =~= Seq::<char>::empty());
        assert(after_last(s@, c) =~= s@.skip(i as int));
    }
    let sl = s.len();
    crate::text::slice_chars(s, i, sl)
}

/// Seconds a fired key is remembered after its occurrence.
pub const FIRED_KEY_TTL: i64 = 86400;

/// The occurrence time a key ends with, `"{stable_id}@{occurrence}"`.
pub open spec fn key_time(k: Seq<char>) -> Option<i64> {
    parse_i64(after_last(k, '@'))
}

/// A fired key worth remembering at `now`: its occurrence is less than a
/// day back. Keys without a readable time are forgotten.
pub open spec fn key_young(k: Seq<char>, now: i64) -> bool {
    match key_time(k) {
        Some(ts) => now - ts < FIRED_KEY_TTL,
        None => false,
    }
}

/// The fired keys kept at `now`.
pub open spec fn fired_kept(f: Seq<Seq<char>>, now: i64) -> Seq<Seq<char>>
    decreases f.len(),
{
    if f.len() == 0 {
        f
    } else if key_young(f.last(), now) {
        fired_kept(f.drop_last(), now).push(f.last())
    } else {
        fired_kept(f.drop_last(), now)
    }
}

/// Is the fired key `k` still worth remembering at `now`?
pub fn key_is_young(k: &String, now: i64) -> (b: bool)
    ensures
        b == key_young(k@, now),
{
    let cs = chars_of(k.as_str());
    let piece = after_last_chars(&cs, '@');
    match parse_int(&piece) {
        Some(ts) => (now as i128) - (ts as i128) < FIRED_KEY_TTL as i128,
        None => false,
    }
}

proof fn lemma_after_last_tail(a: Seq<char>, b: Seq<char>, c: char)
    requires
        !b.contains(c),
    ensures
        after_last(a.push(c) + b, c) == b,
    decreases b.len(),
{
    if b.len() == 0 {
        assert(a.push(c) + b =~= a.push(c));
    } else {
        assert((a.push(c) + b).drop_last() =~= a.push(c) + b.drop_last());
        assert(b.drop_last().contains(c) ==> b.contains(c)) by {
            if b.drop_last().contains(c) {
                let k = choose|k: int| 0 <= k < b.drop_last().len() && b.drop_last()[k] == c;
                assert(b[k] == c);
            }
        }
        lemma_after_last_tail(a, b.drop_last(), c);
        assert(b.last() != c) by {
            assert(b[b.len() - 1] == b.last());
        }
        assert(b.drop_last().push(b.last()) =~= b);
    }
}

proof fn lemma_digit_char(d: nat)
    requires
        d < 10,
    ensures
        digit_char(d) as int - '0' as int == d,
        is_digit(digit_char(d)),
{
}

proof fn lemma_digits_of_value(n: nat)
    ensures
        all_digits(digits_of(n)),
        digits_value(digits_of(n)) == n,
        digits_of(n).len() > 0,
        !digits_of(n).contains('@'),
        !digits_of(n).contains('-'),
        !digits_of(n).contains('+'),
    decreases n,
{
    if n < 10 {
        lemma_digit_char(n);
        assert(digits_of(n) =~= seq![digit_char(n)]);
        assert(digits_of(n).drop_last() =~= Seq::<char>::empty());
        assert(digits_value(Seq::<char>::empty()) == 0);
        assert(digits_of(n).last() == digit_char(n));
        assert(digits_value(digits_of(n)) == digits_value(digits_of(n).drop_last()) * 10 + (digit_char(n) as int - '0' as int));
    } else {
        lemma_digits_of_value(n / 10);
        lemma_digit_char(n % 10);
        let p = digits_of(n / 10);
        let c = digit_char(n % 10);
        assert(digits_of(n) == p.push(c));
        assert(digits_of(n).drop_last() =~= p);
        assert(digits_value(digits_of(n)) == (n / 10) * 10 + n % 10);
        assert(n == (n / 10) * 10 + n % 10) by (nonlinear_arith);
        assert forall|i: int| 0 <= i < digits_of(n).len() implies is_digit(#[trigger] digits_of(n)[i]) by {
            if i < p.len() {
                assert(digits_of(n)[i] == p[i]);
            }
        }
        assert(!digits_of(n).contains('@')) by {
            if digits_of(n).contains('@') {
                let k = choose|k: int| 0 <= k < digits_of(n).len() && digits_of(n)[k] == '@';
                assert(is_digit(digits_of(n)[k]));
            }
        }
        assert(!digits_of(n).contains('-')) by {
            if digits_of(n).contains('-') {
                let k = choose|k: int| 0 <= k < digits_of(n).len() && digits_of(n)[k] == '-';
                assert(is_digit(digits_of(n)[k]));
            }
        }
        assert(!digits_of(n).contains('+')) by {
            if digits_of(n).contains('+') {
                let k = choose|k: int| 0 <= k < digits_of(n).len() && digits_of(n)[k] == '+';
                assert(is_digit(digits_of(n)[k]));
            }
        }
    }
}

/// Reading back what `i64::to_string` wrote gives the number again.
pub proof fn parse_reads_decimal(n: i64)
    ensures
        parse_i64(decimal(n as int)) == Some(n),
        !decimal(n as int).contains('@'),
{
    if n < 0 {
        let m = (-n) as nat;
        lemma_digits_of_value(m);
        let s = decimal(n as int);
        assert(s == seq!['-'] + digits_of(m));
        assert(s.skip(1) =~= digits_of(m));
        assert(s[0] == '-');
        assert(!s.contains('@')) by {
            if s.contains('@') {
                let k = choose|k: int| 0 <= k < s.len() && s[k] == '@';
                assert(k > 0);
                assert(s[k] == digits_of(m)[k - 1]);
            }
        }
    } else {
        lemma_digits_of_value(n as nat);
        let s = decimal(n as int);
        assert(s[0] != '-' && s[0] != '+') by {
            assert(is_digit(s[0]));
        }
    }
}

/// The key a flyby is fired under carries its occurrence: it is forgotten
/// exactly when the occurrence lies a day or more back.
pub proof fn fired_keys_expire_after_a_day(e: CalEvent, now: i64)
    ensures
        key_time(event_key(e)) == Some(e.occurrence),
        key_young(event_key(e), now) == (now - e.occurrence < FIRED_KEY_TTL),
{
    parse_reads_decimal(e.occurrence);
    lemma_after_last_tail(e.stable_id@, decimal(e.occurrence as int), '@');
    assert(event_key(e) == e.stable_id@.push('@') + decimal(e.occurrence as int)) by {
        assert(e.stable_id@ + seq!['@'] + decimal(e.occurrence as int) =~= e.stable_id@.push('@') + decimal(
            e.occurrence as int,
        ));
    }
}

/// The fired keys worth remembering at `now`, in their order.
pub fn prune_fired(fired: &Vec<String>, now: i64) -> (r: Vec<String>)
    ensures
        keys_view(r@) == fired_kept(keys_view(fired@), now),
{
    let mut r: Vec<String> = Vec::new();
    let mut i: usize = 0;
    while i < fired.len()
        invariant
            i <= fired.len(),
            keys_view(r@) == fired_kept(keys_view(fired@).take(i as int), now),
        decreases fired.len() - i,
    {
        proof {
            assert(keys_view(fired@).take(i + 1).drop_last() =~= keys_view(fired@).take(i as int));
        }
        if key_is_young(&fired[i], now) {
            r.push(fired[i].clone());
            assert(keys_view(r@) =~= fired_kept(keys_view(fired@).take(i as int), now).push(fired@[i as int]@));
        }
        i += 1;
    }
    assert(keys_view(fired@).take(fired.len() as int) =~= keys_view(fired@));
    r
}

} // verus!

verus! {

/// Seconds after its start a meeting still gets its flyby; later ones are
/// dropped quietly (no salvo after sleep).
pub const LATE_LIMIT: i64 = 60;

/// Unknown verdicts tolerated before a flyby goes ahead from the last
/// confirmed snapshot.
pub const UNKNOWN_RETRIES: u8 = 2;

/// `f` with `k` added unless it is there already.
pub open spec fn mark(f: Seq<Seq<char>>, k: Seq<char>) -> Seq<Seq<char>> {
    if f.contains(k) {
        f
    } else {
        f.push(k)
    }
}

pub open spec fn too_late(j: JobView, now: i64) -> bool {
    now >= j.start + LATE_LIMIT
}

/// Walking the queue from entry `i` in flying order: due entries that
/// already flew are passed over, due ones too late are marked as flown,
/// and the first other due entry is the next flyby.
pub open spec fn scan_due(q: Seq<(int, JobView)>, fired: Seq<Seq<char>>, now: i64, i: int) -> (Seq<Seq<char>>, Option<int>)
    decreases q.len() - i,
{
    if i < 0 || i >= q.len() {
        (fired, None)
    } else if q[i].0 > now || fired.contains(q[i].1.key) {
        scan_due(q, fired, now, i + 1)
    } else if too_late(q[i].1, now) {
        scan_due(q, mark(fired, q[i].1.key), now, i + 1)
    } else {
        (fired, Some(i))
    }
}

/// What the last check before a flyby decides.
#[derive(Debug, Clone, Copy, PartialEq, Eq, Structural)]
pub enum CheckOutcome {
    /// the meeting is gone: never fly it, go on with the next due one
    Skip,
    /// the service could not tell: try again on the next tick
    Wait,
    /// open the flyby
    Fly,
}

/// First entry at or after `i` with key `k`.
pub open spec fn index_from(r: Seq<(Seq<char>, u8)>, k: Seq<char>, i: int) -> Option<int>
    decreases r.len() - i,
{
    if i < 0 || i >= r.len() {
        None
    } else if r[i].0 == k {
        Some(i)
    } else {
        index_from(r, k, i + 1)
    }
}

/// Unknown verdicts counted so far for key `k`.
pub open spec fn tries_of(r: Seq<(Seq<char>, u8)>, k: Seq<char>) -> u8 {
    match index_from(r, k, 0) {
        Some(i) => r[i].1,
        None => 0,
    }
}

/// One more, wrapping as the counter's `+=` does in a release build.
pub open spec fn next_try(t: u8) -> u8 {
    if t == 255 {
        0
    } else {
        (t + 1) as u8
    }
}

/// The counters after one more unknown verdict for `k`.
pub open spec fn bumped(r: Seq<(Seq<char>, u8)>, k: Seq<char>) -> Seq<(Seq<char>, u8)> {
    match index_from(r, k, 0) {
        Some(i) => r.update(i, (k, next_try(r[i].1))),
        None => r.push((k, 1u8)),
    }
}

/// The counters kept after a poll: those of keys not yet flown.
pub open spec fn retries_kept(r: Seq<(Seq<char>, u8)>, fired: Seq<Seq<char>>) -> Seq<(Seq<char>, u8)>
    decreases r.len(),
{
    if r.len() == 0 {
        r
    } else if !fired.contains(r.last().0) {
        retries_kept(r.drop_last(), fired).push(r.last())
    } else {
        retries_kept(r.drop_last(), fired)
    }
}

/// The fired keys, the counters and the outcome after the last check of
/// the flyby with key `key` came back `v`.
pub open spec fn check_spec(
    fired: Seq<Seq<char>>,
    r: Seq<(Seq<char>, u8)>,
    key: Seq<char>,
    v: EventValidity,
) -> (Seq<Seq<char>>, Seq<(Seq<char>, u8)>, CheckOutcome) {
    match v {
        EventValidity::Gone => (mark(fired, key), r, CheckOutcome::Skip),
        EventValidity::Unknown => {
            let r2 = bumped(r, key);
            if tries_of(r2, key) <= UNKNOWN_RETRIES {
                (fired, r2, CheckOutcome::Wait)
            } else {
                (fired, r2, CheckOutcome::Fly)
            }
        },
        EventValidity::Valid => (fired, r, CheckOutcome::Fly),
    }
}

pub open spec fn retries_view(v: Seq<(String, u8)>) -> Seq<(Seq<char>, u8)> {
    v.map_values(|e: (String, u8)| (e.0@, e.1))
}

proof fn lemma_index_from(r: Seq<(Seq<char>, u8)>, k: Seq<char>, i: int)
    requires
        0 <= i,
    ensures
        match index_from(r, k, i) {
            Some(j) => i <= j < r.len() && r[j].0 == k && forall|m: int| i <= m < j ==> r[m].0 != k,
            None => forall|m: int| i <= m < r.len() ==> r[m].0 != k,
        },
    decreases r.len() - i,
{
    if i < r.len() && r[i].0 != k {
        lemma_index_from(r, k, i + 1);
    }
}

proof fn lemma_index_at(r: Seq<(Seq<char>, u8)>, k: Seq<char>, i: int, j: int)
    requires
        0 <= i <= j < r.len(),
        r[j].0 == k,
        forall|m: int| i <= m < j ==> r[m].0 != k,
    ensures
        index_from(r, k, i) == Some(j),
    decreases j - i,
{
    if i < j {
        lemma_index_at(r, k, i + 1, j);
    }
}

proof fn lemma_bumped_tries(r: Seq<(Seq<char>, u8)>, k: Seq<char>)
    ensures
        tries_of(bumped(r, k), k) == next_try(tries_of(r, k)),
{
    lemma_index_from(r, k, 0);
    match index_from(r, k, 0) {
        Some(i) => {
            let r2 = r.update(i, (k, next_try(r[i].1)));
            lemma_index_at(r2, k, 0, i);
        },
        None => {
            let r2 = r.push((k, 1u8));
            lemma_index_at(r2, k, 0, r.len() as int);
        },
    }
}

/// The last check never drops a meeting on a failed read: the first two
/// unknown verdicts for a flyby make it wait for the next tick, and the
/// third lets it fly from the last confirmed snapshot. A verdict that the
/// meeting is gone marks it as flown, so it never flies.
pub proof fn unknown_verdicts_wait_twice_then_fly(fired: Seq<Seq<char>>, r: Seq<(Seq<char>, u8)>, k: Seq<char>)
    requires
        tries_of(r, k) == 0,
    ensures
        ({
            let (f1, r1, o1) = check_spec(fired, r, k, EventValidity::Unknown);
            let (f2, r2, o2) = check_spec(f1, r1, k, EventValidity::Unknown);
            let (f3, r3, o3) = check_spec(f2, r2, k, EventValidity::Unknown);
            &&& o1 == CheckOutcome::Wait
            &&& o2 == CheckOutcome::Wait
            &&& o3 == CheckOutcome::Fly
            &&& f3 == fired
        }),
        check_spec(fired, r, k, EventValidity::Gone).0.contains(k),
        check_spec(fired, r, k, EventValidity::Gone).2 == CheckOutcome::Skip,
        check_spec(fired, r, k, EventValidity::Valid).2 == CheckOutcome::Fly,
{
    lemma_bumped_tries(r, k);
    let r1 = bumped(r, k);
    lemma_bumped_tries(r1, k);
    let r2 = bumped(r1, k);
    lemma_bumped_tries(r2, k);
    assert(mark(fired, k).contains(k)) by {
        if !fired.contains(k) {
            assert(fired.push(k)[fired.len() as int] == k);
        }
    }
}

pub proof fn lemma_mark_keeps(f: Seq<Seq<char>>, k: Seq<char>, x: Seq<char>)
    ensures
        f.contains(x) ==> mark(f, k).contains(x),
        mark(f, k).contains(k),
{
    if !f.contains(k) {
        assert(f.push(k)[f.len() as int] == k);
        if f.contains(x) {
            let m = choose|m: int| 0 <= m < f.len() && f[m] == x;
            assert(f.push(k)[m] == x);
        }
    }
}

/// The next flyby is due, was not flown, and is not too late; whatever
/// flew before stays flown.
pub proof fn next_flyby_is_due_and_new(q: Seq<(int, JobView)>, fired: Seq<Seq<char>>, now: i64, i: int, x: Seq<char>)
    requires
        0 <= i,
    ensures
        fired.contains(x) ==> scan_due(q, fired, now, i).0.contains(x),
        scan_due(q, fired, now, i).1 matches Some(j) ==> {
            &&& i <= j < q.len()
            &&& q[j].0 <= now
            &&& now < q[j].1.start + LATE_LIMIT
            &&& !scan_due(q, fired, now, i).0.contains(q[j].1.key)
        },
    decreases q.len() - i,
{
    if i < q.len() {
        if q[i].0 > now || fired.contains(q[i].1.key) {
            next_flyby_is_due_and_new(q, fired, now, i + 1, x);
        } else if too_late(q[i].1, now) {
            lemma_mark_keeps(fired, q[i].1.key, x);
            next_flyby_is_due_and_new(q, mark(fired, q[i].1.key), now, i + 1, x);
        }
    }
}

pub proof fn lemma_kept_young(f: Seq<Seq<char>>, now: i64, x: Seq<char>)
    requires
        f.contains(x),
        key_young(x, now),
    ensures
        fired_kept(f, now).contains(x),
    decreases f.len(),
{
    let k = fired_kept(f.drop_last(), now);
    if f.last() == x {
        assert(k.push(x)[k.len() as int] == x);
    } else {
        let m = choose|m: int| 0 <= m < f.len() && f[m] == x;
        assert(f.drop_last()[m] == x);
        lemma_kept_young(f.drop_last(), now, x);
        if key_young(f.last(), now) {
            let n = choose|n: int| 0 <= n < k.len() && k[n] == x;
            assert(k.push(f.last())[n] == x);
        }
    }
}

/// A meeting flies at most once while its key is remembered: a flown key
/// stays flown through every step of the scheduler (the scan for the next
/// flyby, the last check, the opening, and a poll, which forgets only keys
/// a day old), and the next flyby is never one whose key has flown.
pub proof fn flown_keys_never_fly_again(
    q: Seq<(int, JobView)>,
    fired: Seq<Seq<char>>,
    r: Seq<(Seq<char>, u8)>,
    key: Seq<char>,
    v: EventValidity,
    now: i64,
    x: Seq<char>,
)
    requires
        fired.contains(x),
    ensures
        scan_due(q, fired, now, 0).0.contains(x),
        scan_due(q, fired, now, 0).1 matches Some(j) ==> q[j].1.key != x,
        check_spec(fired, r, key, v).0.contains(x),
        mark(fired, key).contains(x),
        key_young(x, now) ==> fired_kept(fired, now).contains(x),
{
    next_flyby_is_due_and_new(q, fired, now, 0, x);
    lemma_mark_keeps(fired, key, x);
    if key_young(x, now) {
        lemma_kept_young(fired, now, x);
    }
}

/// One tick's search for a flyby, given the verdicts `vs` the last checks
/// come back with, in order: the next due flyby is checked; a gone meeting
/// is passed over and the search goes on, an unknown answer waits for the
/// next tick (until the retries run out), and the first flyby cleared ends
/// the tick. The result is the fired keys, the counters and the index of
/// the flyby to open; `None` when `vs` does not fit such a tick (too few
/// or too many verdicts).
pub open spec fn tick_spec(
    q: Seq<(int, JobView)>,
    fired: Seq<Seq<char>>,
    r: Seq<(Seq<char>, u8)>,
    now: i64,
    vs: Seq<EventValidity>,
) -> Option<(Seq<Seq<char>>, Seq<(Seq<char>, u8)>, Option<int>)>
    decreases vs.len(),
{
    let (f1, due) = scan_due(q, fired, now, 0);
    match due {
        None => if vs.len() == 0 {
            Some((f1, r, None))
        } else {
            None
        },
        Some(i) => if vs.len() == 0 {
            None
        } else {
            let (f2, r2, c) = check_spec(f1, r, q[i].1.key, vs[0]);
            match c {
                CheckOutcome::Skip => tick_spec(q, f2, r2, now, vs.drop_first()),
                CheckOutcome::Wait => if vs.len() == 1 {
                    Some((f2, r2, None))
                } else {
                    None
                },
                CheckOutcome::Fly => if vs.len() == 1 {
                    Some((f2, r2, Some(i)))
                } else {
                    None
                },
            }
        },
    }
}

/// The queue entries one tick checks, in order, given the verdicts `vs`:
/// the due flyby each verdict answers for.
pub open spec fn tick_checks(
    q: Seq<(int, JobView)>,
    fired: Seq<Seq<char>>,
    r: Seq<(Seq<char>, u8)>,
    now: i64,
    vs: Seq<EventValidity>,
) -> Seq<int>
    decreases vs.len(),
{
    let (f1, due) = scan_due(q, fired, now, 0);
    match due {
        None => Seq::empty(),
        Some(i) => if vs.len() == 0 {
            Seq::empty()
        } else {
            let (f2, r2, c) = check_spec(f1, r, q[i].1.key, vs[0]);
            match c {
                CheckOutcome::Skip => seq![i] + tick_checks(q, f2, r2, now, vs.drop_first()),
                _ => seq![i],
            }
        }
    }
}

/// A tick from fired keys `f` and counters `rt` ended in `f2`, `r2` and
/// returned `res`, the checks having answered `vs` for the jobs `js`: each
/// job the due flyby `tick_checks` says the tick was at, each verdict an
/// answer `check` gives for its job.
pub open spec fn tick_record<F: Fn(&FlybyJob) -> EventValidity>(
    q: Seq<(int, JobView)>,
    f: Seq<Seq<char>>,
    rt: Seq<(Seq<char>, u8)>,
    now: i64,
    vs: Seq<EventValidity>,
    js: Seq<FlybyJob>,
    f2: Seq<Seq<char>>,
    r2: Seq<(Seq<char>, u8)>,
    res: Option<FlybyJob>,
    check: F,
) -> bool {
    let ids = tick_checks(q, f, rt, now, vs);
    &&& tick_spec(q, f, rt, now, vs) matches Some((fa, ra, opened))
    &&& fa == f2
    &&& ra == r2
    &&& match opened {
        Some(i) => res matches Some(j) && j@ == q[i].1,
        None => res is None,
    }
    &&& ids.len() == vs.len()
    &&& js.len() == vs.len()
    &&& forall|k: int|
        0 <= k < vs.len() ==> 0 <= ids[k] < q.len() && (#[trigger] js[k])@ == q[ids[k]].1 && call_ensures(
            check,
            (&js[k],),
            vs[k],
        )
}

/// No flyby is looked for while the user's mute is on or an overlay is
/// already in the air.
pub open spec fn tick_blocked(mute_until: Option<i64>, now: i64, overlay_open: bool) -> bool {
    (mute_until matches Some(t) && t > now) || overlay_open
}

/// Number of entries of `q` whose key has flown.
pub open spec fn flown_count(q: Seq<(int, JobView)>, f: Seq<Seq<char>>) -> nat
    decreases q.len(),
{
    if q.len() == 0 {
        0
    } else {
        flown_count(q.drop_last(), f) + if f.contains(q.last().1.key) {
            1nat
        } else {
            0nat
        }
    }
}

proof fn lemma_flown_count(q: Seq<(int, JobView)>, f: Seq<Seq<char>>, g: Seq<Seq<char>>, i: int)
    requires
        forall|x: Seq<char>| f.contains(x) ==> g.contains(x),
    ensures
        flown_count(q, f) <= flown_count(q, g),
        flown_count(q, g) <= q.len(),
        0 <= i < q.len() && !f.contains(q[i].1.key) && g.contains(q[i].1.key) ==> flown_count(q, f)
            < flown_count(q, g),
    decreases q.len(),
{
    if q.len() > 0 {
        if i == q.len() - 1 {
            lemma_flown_count(q.drop_last(), f, g, -1);
        } else {
            lemma_flown_count(q.drop_last(), f, g, i);
            if 0 <= i < q.len() {
                assert(q.drop_last()[i] == q[i]);
            }
        }
    }
}

/// Within one tick, the flyby to open is due, not too late, and not flown
/// before the tick; every key flown before the tick is still flown after it.
pub proof fn a_tick_opens_one_due_new_flyby(
    q: Seq<(int, JobView)>,
    fired: Seq<Seq<char>>,
    r: Seq<(Seq<char>, u8)>,
    now: i64,
    vs: Seq<EventValidity>,
    x: Seq<char>,
)
    ensures
        tick_spec(q, fired, r, now, vs) matches Some((f2, r2, opened)) ==> {
            &&& fired.contains(x) ==> f2.contains(x)
            &&& opened matches Some(i) ==> {
                &&& 0 <= i < q.len()
                &&& q[i].0 <= now
                &&& now < q[i].1.start + LATE_LIMIT
                &&& !fired.contains(q[i].1.key)
            }
        },
    decreases vs.len(),
{
    next_flyby_is_due_and_new(q, fired, now, 0, x);
    let (f1, due) = scan_due(q, fired, now, 0);
    if let Some(i) = due {
        next_flyby_is_due_and_new(q, fired, now, 0, q[i].1.key);
        if vs.len() > 0 {
            lemma_mark_keeps(f1, q[i].1.key, x);
            lemma_mark_keeps(f1, q[i].1.key, q[i].1.key);
            let (f2, r2, c) = check_spec(f1, r, q[i].1.key, vs[0]);
            if c == CheckOutcome::Skip {
                a_tick_opens_one_due_new_flyby(q, f2, r2, now, vs.drop_first(), x);
                match tick_spec(q, f2, r2, now, vs.drop_first()) {
                    Some((_, _, Some(k))) => {
                        a_tick_opens_one_due_new_flyby(q, f2, r2, now, vs.drop_first(), q[k].1.key);
                        next_flyby_is_due_and_new(q, fired, now, 0, q[k].1.key);
                        lemma_mark_keeps(f1, q[i].1.key, q[k].1.key);
                    },
                    _ => {},
                }
            }
        }
    }
}

/// The scheduler's state between ticks: the queue, the keys already flown
/// (a key flies at most once), the unknown verdicts counted per key, and
/// the time of the last poll.
pub struct TickState {
    pub queue: FlybyQueue,
    pub fired: Vec<String>,
    pub retries: Vec<(String, u8)>,
    pub last_poll: i64,
}

fn mark_fired(fired: &mut Vec<String>, key: &String)
    ensures
        keys_view(final(fired)@) == mark(keys_view(old(fired)@), key@),
{
    if !contains_string(fired, key) {
        fired.push(key.clone());
        assert(keys_view(fired@) =~= keys_view(old(fired)@).push(key@));
    }
}

impl TickState {
    /// Nothing queued, nothing flown, never polled.
    pub fn new() -> (s: TickState)
        ensures
            s.queue@.len() == 0,
            s.fired@.len() == 0,
            s.retries@.len() == 0,
            s.last_poll == 0,
    {
        TickState { queue: FlybyQueue::new(), fired: Vec::new(), retries: Vec::new(), last_poll: 0 }
    }

    /// Whether to poll the calendars at `now` (`forced` when a poll was
    /// asked for); the time of the last poll moves accordingly.
    pub fn poll_due(&mut self, now: i64, forced: bool) -> (b: bool)
        ensures
            (final(self).last_poll, b) == poll_decision(old(self).last_poll, now, forced),
            final(self).queue@ == old(self).queue@,
            final(self).fired@ == old(self).fired@,
            final(self).retries@ == old(self).retries@,
    {
        let (lp, b) = poll_due(self.last_poll, now, forced);
        self.last_poll = lp;
        b
    }

    /// Takes in a poll's results: the queue is rebuilt with the lead time
    /// from the setting, fired keys older than a day are forgotten, and
    /// so are the counters of keys that flew.
    pub fn apply_poll(
        &mut self,
        ekit: Result<Vec<CalEvent>, String>,
        ics: Option<Result<Vec<CalEvent>, String>>,
        minutes_before: u32,
        now: i64,
    )
        ensures
            final(self).queue@ == rebuilt_queue(old(self).queue@, ekit, ics, lead_of(minutes_before) as int),
            keys_view(final(self).fired@) == fired_kept(keys_view(old(self).fired@), now),
            retries_view(final(self).retries@) == retries_kept(
                retries_view(old(self).retries@),
                keys_view(final(self).fired@),
            ),
            final(self).last_poll == old(self).last_poll,
    {
        let lead = lead_seconds(minutes_before);
        self.queue = rebuild_queue(&self.queue, ekit, ics, lead);
        self.fired = prune_fired(&self.fired, now);
        let ghost r0 = retries_view(self.retries@);
        let ghost f = keys_view(self.fired@);
        let mut kept: Vec<(String, u8)> = Vec::new();
        let mut i: usize = 0;
        while i < self.retries.len()
            invariant
                i <= self.retries.len(),
                r0 == retries_view(self.retries@),
                f == keys_view(self.fired@),
                retries_view(kept@) == retries_kept(r0.take(i as int), f),
            decreases self.retries.len() - i,
        {
            proof {
                assert(r0.take(i + 1).drop_last() =~= r0.take(i as int));
            }
            if !contains_string(&self.fired, &self.retries[i].0) {
                kept.push((self.retries[i].0.clone(), self.retries[i].1));
                assert(retries_view(kept@) =~= retries_kept(r0.take(i as int), f).push(r0[i as int]));
            }
            i += 1;
        }
        assert(r0.take(self.retries.len() as int) =~= r0);
        self.retries = kept;
    }

    /// The next flyby due at `now`, if any: due jobs that already flew are
    /// passed over, due jobs too late are marked as flown.
    pub fn next_due(&mut self, now: i64) -> (r: Option<FlybyJob>)
        ensures
            keys_view(final(self).fired@) == scan_due(old(self).queue@, keys_view(old(self).fired@), now, 0).0,
            match r {
                Some(j) => scan_due(old(self).queue@, keys_view(old(self).fired@), now, 0).1 matches Some(i)
                    && j@ == old(self).queue@[i].1,
                None => scan_due(old(self).queue@, keys_view(old(self).fired@), now, 0).1 is None,
            },
            final(self).queue@ == old(self).queue@,
            final(self).retries@ == old(self).retries@,
            final(self).last_poll == old(self).last_poll,
    {
        let ghost q = self.queue@;
        let ghost f0 = keys_view(self.fired@);
        let mut i: usize = 0;
        while i < self.queue.len()
            invariant
                i <= self.queue@.len(),
                q == self.queue@,
                q == old(self).queue@,
                f0 == keys_view(old(self).fired@),
                scan_due(q, f0, now, 0) == scan_due(q, keys_view(self.fired@), now, i as int),
                self.retries@ == old(self).retries@,
                self.last_poll == old(self).last_poll,
            decreases self.queue@.len() - i,
        {
            let fire_at = self.queue.fire_at(i);
            let job = self.queue.job(i);
            if fire_at > now as i128 || contains_string(&self.fired, &job.key) {
                i += 1;
            } else if (now as i128) >= (job.start as i128) + (LATE_LIMIT as i128) {
                let key = job.key.clone();
                mark_fired(&mut self.fired, &key);
                i += 1;
            } else {
                return Some(job.copy_of());
            }
        }
        None
    }

    /// Takes in the last check of the flyby with key `key`.
    pub fn after_check(&mut self, key: &String, v: EventValidity) -> (c: CheckOutcome)
        ensures
            (keys_view(final(self).fired@), retries_view(final(self).retries@), c) == check_spec(
                keys_view(old(self).fired@),
                retries_view(old(self).retries@),
                key@,
                v,
            ),
            final(self).queue@ == old(self).queue@,
            final(self).last_poll == old(self).last_poll,
    {
        match v {
            EventValidity::Gone => {
                mark_fired(&mut self.fired, key);
                CheckOutcome::Skip
            },
            EventValidity::Unknown => {
                let t = self.bump_retries(key);
                if t <= UNKNOWN_RETRIES {
                    CheckOutcome::Wait
                } else {
                    CheckOutcome::Fly
                }
            },
            EventValidity::Valid => CheckOutcome::Fly,
        }
    }

    fn bump_retries(&mut self, key: &String) -> (t: u8)
        ensures
            retries_view(final(self).retries@) == bumped(retries_view(old(self).retries@), key@),
            t == tries_of(bumped(retries_view(old(self).retries@), key@), key@),
            final(self).fired@ == old(self).fired@,
            final(self).queue@ == old(self).queue@,
            final(self).last_poll == old(self).last_poll,
    {
        let ghost r = retries_view(self.retries@);
        proof {
            lemma_bumped_tries(r, key@);
            lemma_index_from(r, key@, 0);
        }
        let mut i: usize = 0;
        while i < self.retries.len()
            invariant
                i <= self.retries.len(),
                r == retries_view(self.retries@),
                r == retries_view(old(self).retries@),
                self.fired@ == old(self).fired@,
                self.queue@ == old(self).queue@,
                self.last_poll == old(self).last_poll,
                forall|m: int| 0 <= m < i ==> r[m].0 != key@,
            decreases self.retries.len() - i,
        {
            if self.retries[i].0 == *key {
                assert(r[i as int].0 == key@);
                proof {
                    lemma_index_at(r, key@, 0, i as int);
                    lemma_bumped_tries(r, key@);
                }
                let t = self.retries[i].1;
                let n: u8 = if t == 255 { 0 } else { t + 1 };
                let k = self.retries[i].0.clone();
                self.retries.set(i, (k, n));
                assert(retries_view(self.retries@) =~= r.update(i as int, (key@, n)));
                return n;
            }
            i += 1;
        }
        proof {
            lemma_index_from(r, key@, 0);
            lemma_bumped_tries(r, key@);
        }
        self.retries.push((key.clone(), 1));
        assert(retries_view(self.retries@) =~= r.push((key@, 1u8)));
        1
    }

    /// The flyby with key `key` was opened (or its window failed to open,
    /// in which case it is tried again on the next tick).
    pub fn after_open(&mut self, key: &String, opened: bool)
        ensures
            keys_view(final(self).fired@) == if opened {
                mark(keys_view(old(self).fired@), key@)
            } else {
                keys_view(old(self).fired@)
            },
            final(self).queue@ == old(self).queue@,
            final(self).retries@ == old(self).retries@,
            final(self).last_poll == old(self).last_poll,
    {
        if opened {
            mark_fired(&mut self.fired, key);
        }
    }

    /// One tick's search for the flyby to open at `now`. Nothing is looked
    /// for while the mute (`mute_until`) is on or an overlay is open.
    /// Otherwise due flybies are checked one after another with `check`
    /// (the last check against the calendar); a gone meeting is passed
    /// over, an unknown answer ends the tick, and the first flyby cleared is
    /// returned: at most one, whatever the checks answer. The verdicts are
    /// what `check` answered for the jobs handed to it, each job the due
    /// flyby the tick was at.
    pub fn run_tick(
        &mut self,
        now: i64,
        mute_until: Option<i64>,
        overlay_open: bool,
        check: impl Fn(&FlybyJob) -> EventValidity,
    ) -> (r: Option<FlybyJob>)
        requires
            forall|j: &FlybyJob| check.requires((j,)),
        ensures
            tick_blocked(mute_until, now, overlay_open) ==> r is None && final(self).fired@ == old(self).fired@
                && final(self).retries@ == old(self).retries@,
            !tick_blocked(mute_until, now, overlay_open) ==> exists|vs: Seq<EventValidity>, js: Seq<FlybyJob>|
                #[trigger] tick_record(
                    old(self).queue@,
                    keys_view(old(self).fired@),
                    retries_view(old(self).retries@),
                    now,
                    vs,
                    js,
                    keys_view(final(self).fired@),
                    retries_view(final(self).retries@),
                    r,
                    check,
                ),
            final(self).queue@ == old(self).queue@,
            final(self).last_poll == old(self).last_poll,
    {
        if is_muted(mute_until, now) || overlay_open {
            return None;
        }
        let ghost q = self.queue@;
        let ghost f0 = keys_view(self.fired@);
        let ghost r0 = retries_view(self.retries@);
        let ghost mut vs: Seq<EventValidity> = Seq::empty();
        let ghost mut js: Seq<FlybyJob> = Seq::empty();
        let ghost mut ids: Seq<int> = Seq::empty();
        assert(forall|rest: Seq<EventValidity>| vs + rest =~= rest);
        assert(forall|t: Seq<int>| ids + t =~= t);
        loop
            invariant
                self.queue@ == q,
                q == old(self).queue@,
                f0 == keys_view(old(self).fired@),
                r0 == retries_view(old(self).retries@),
                self.last_poll == old(self).last_poll,
                !tick_blocked(mute_until, now, overlay_open),
                forall|j: &FlybyJob| check.requires((j,)),
                ids.len() == vs.len(),
                js.len() == vs.len(),
                forall|k: int| 0 <= k < vs.len() ==> 0 <= #[trigger] ids[k] < q.len(),
                forall|k: int| 0 <= k < vs.len() ==> (#[trigger] js[k])@ == q[ids[k]].1,
                forall|k: int| 0 <= k < vs.len() ==> call_ensures(check, (&js[k],), #[trigger] vs[k]),
                forall|rest: Seq<EventValidity>|
                    #[trigger] tick_spec(q, f0, r0, now, vs + rest) == tick_spec(
                        q,
                        keys_view(self.fired@),
                        retries_view(self.retries@),
                        now,
                        rest,
                    ),
                forall|rest: Seq<EventValidity>|
                    #[trigger] tick_checks(q, f0, r0, now, vs + rest) == ids + tick_checks(
                        q,
                        keys_view(self.fired@),
                        retries_view(self.retries@),
                        now,
                        rest,
                    ),
            decreases q.len() - flown_count(q, keys_view(self.fired@)),
        {
            let ghost f = keys_view(self.fired@);
            let ghost rr = retries_view(self.retries@);
            let job = match self.next_due(now) {
                Some(j) => j,
                None => {
                    proof {
                        let e = Seq::<EventValidity>::empty();
                        assert(tick_spec(q, f, rr, now, e) == Some((keys_view(self.fired@), rr, None::<int>)));
                        assert(tick_spec(q, f0, r0, now, vs + e) == tick_spec(q, f, rr, now, e));
                        assert(tick_checks(q, f0, r0, now, vs + e) == ids + tick_checks(q, f, rr, now, e));
                        assert(vs + e =~= vs);
                        assert(ids + Seq::<int>::empty() =~= ids);
                        assert(tick_spec(q, f0, r0, now, vs) == Some((keys_view(self.fired@), rr, None::<int>)));
                        assert(tick_checks(q, f0, r0, now, vs) == ids);
                        assert(rr == retries_view(self.retries@));
                        assert(tick_record(q, f0, r0, now, vs, js, keys_view(self.fired@), rr, None, check));
                    }
                    return None;
                },
            };
            let ghost i = scan_due(q, f, now, 0).1->0;
            let ghost f1 = keys_view(self.fired@);
            proof {
                next_flyby_is_due_and_new(q, f, now, 0, q[i].1.key);
            }
            let v = check(&job);
            let c = self.after_check(&job.key, v);
            proof {
                assert forall|rest: Seq<EventValidity>|
                    #[trigger] tick_spec(q, f0, r0, now, vs.push(v) + rest) == tick_spec(
                        q,
                        f,
                        rr,
                        now,
                        seq![v] + rest,
                    ) && tick_checks(q, f0, r0, now, vs.push(v) + rest) == ids + tick_checks(
                        q,
                        f,
                        rr,
                        now,
                        seq![v] + rest,
                    ) by {
                    assert(vs.push(v) + rest =~= vs + (seq![v] + rest));
                }
                assert forall|rest: Seq<EventValidity>| (seq![v] + rest).drop_first() =~= rest by {}
                assert(0 <= i < q.len());
                vs = vs.push(v);
                js = js.push(job);
                ids = ids.push(i);
                assert(js[js.len() - 1] == job);
            }
            match c {
                CheckOutcome::Skip => {
                    proof {
                        assert forall|x: Seq<char>| f.contains(x) implies keys_view(self.fired@).contains(x) by {
                            next_flyby_is_due_and_new(q, f, now, 0, x);
                            lemma_mark_keeps(f1, q[i].1.key, x);
                        }
                        lemma_mark_keeps(f1, q[i].1.key, q[i].1.key);
                        lemma_flown_count(q, f, keys_view(self.fired@), i);
                        assert forall|rest: Seq<EventValidity>|
                            #[trigger] tick_spec(q, f0, r0, now, vs + rest) == tick_spec(
                                q,
                                keys_view(self.fired@),
                                retries_view(self.retries@),
                                now,
                                rest,
                            ) by {
                            assert((seq![v] + rest).drop_first() =~= rest);
                            assert((seq![v] + rest)[0] == v);
                            assert(vs + rest =~= vs.drop_last().push(v) + rest);
                        }
                        assert forall|rest: Seq<EventValidity>|
                            #[trigger] tick_checks(q, f0, r0, now, vs + rest) == ids + tick_checks(
                                q,
                                keys_view(self.fired@),
                                retries_view(self.retries@),
                                now,
                                rest,
                            ) by {
                            assert((seq![v] + rest).drop_first() =~= rest);
                            assert((seq![v] + rest)[0] == v);
                            assert(vs + rest =~= vs.drop_last().push(v) + rest);
                            let t = tick_checks(q, keys_view(self.fired@), retries_view(self.retries@), now, rest);
                            assert(tick_spec(q, f0, r0, now, vs.drop_last().push(v) + rest) == tick_spec(
                                q,
                                f,
                                rr,
                                now,
                                seq![v] + rest,
                            ));
                            assert(tick_checks(q, f, rr, now, seq![v] + rest) == seq![i] + t);
                            assert(ids.drop_last() + (seq![i] + t) =~= ids + t);
                        }
                    }
                },
                CheckOutcome::Wait => {
                    proof {
                        let e = Seq::<EventValidity>::empty();
                        assert((seq![v] + e) =~= seq![v]);
                        assert(vs + e =~= vs);
                        assert(vs.drop_last().push(v) + e =~= vs);
                        assert(tick_spec(q, f0, r0, now, vs) == tick_spec(q, f, rr, now, seq![v]));
                        assert(tick_checks(q, f0, r0, now, vs) == ids.drop_last() + tick_checks(q, f, rr, now, seq![v]));
                        assert(ids.drop_last() + seq![i] =~= ids);
                        assert(tick_record(
                            q,
                            f0,
                            r0,
                            now,
                            vs,
                            js,
                            keys_view(self.fired@),
                            retries_view(self.retries@),
                            None,
                            check,
                        ));
                    }
                    return None;
                },
                CheckOutcome::Fly => {
                    proof {
                        let e = Seq::<EventValidity>::empty();
                        assert((seq![v] + e) =~= seq![v]);
                        assert(vs + e =~= vs);
                        assert(vs.drop_last().push(v) + e =~= vs);
                        assert(tick_spec(q, f0, r0, now, vs) == tick_spec(q, f, rr, now, seq![v]));
                        assert(tick_checks(q, f0, r0, now, vs) == ids.drop_last() + tick_checks(q, f, rr, now, seq![v]));
                        assert(tick_checks(q, f, rr, now, seq![v]) == seq![i]);
                        assert(ids.drop_last() + seq![i] =~= ids);
                        assert(tick_checks(q, f0, r0, now, vs) == ids);
                        assert(tick_spec(q, f0, r0, now, vs) == Some(
                            (keys_view(self.fired@), retries_view(self.retries@), Some(i)),
                        ));
                        assert(q[i].1 == job@);
                        assert(tick_record(
                            q,
                            f0,
                            r0,
                            now,
                            vs,
                            js,
                            keys_view(self.fired@),
                            retries_view(self.retries@),
                            Some(job),
                            check,
                        ));
                    }
                    return Some(job);
                },
            }
        }
    }
}

} // verus!

verus! {

/// The title a flyby shows when the meeting has none.
pub open spec fn default_title(language: Seq<char>) -> Seq<char> {
    if language == "en"@ {
        "Meeting"@
    } else {
        "Schůzka"@
    }
}

/// The meeting's title, or the default one when it is blank.
pub open spec fn shown_title(title: Seq<char>, language: Seq<char>) -> Seq<char> {
    if trim(title).len() == 0 {
        default_title(language)
    } else {
        title
    }
}

/// The percent-encoded UTF-8 bytes of `s`.
pub open spec fn encoded(s: Seq<char>) -> Seq<char> {
    percent_encoded(encode_utf8(s))
}

/// The overlay query of a meeting's flyby: the tidied title to show, the
/// full title for the hover card, and the start time.
pub open spec fn flyby_query_text(title: Seq<char>, language: Seq<char>, mascot: Seq<char>, time: Seq<char>) -> Seq<char> {
    let t = shown_title(title, language);
    "mode=event&mascot="@ + alnum_only(mascot) + "&title="@ + encoded(tidied_title(t)) + "&full="@ + encoded(t)
        + "&time="@ + time
}

/// Builds the overlay query for a meeting's flyby (`time` is the start as
/// the user's clock shows it).
pub fn flyby_query(title: &str, language: &str, mascot: &str, time: &str) -> (r: String)
    ensures
        r@ == flyby_query_text(title@, language@, mascot@, time@),
{
    let tv = chars_of(title);
    let blank = trim_chars(&tv).len() == 0;
    let shown: &str = if blank {
        if same_text(language, "en") {
            "Meeting"
        } else {
            "Schůzka"
        }
    } else {
        title
    };
    assert(shown@ == shown_title(title@, language@));
    let tidy = tidy_title(shown);
    let title_enc = percent_encode(tidy.as_str());
    let full_enc = percent_encode(shown);
    let mut q = chars_of("mode=event&mascot=");
    q = concat_chars(&q, &keep_ascii_alnum(mascot));
    q = concat_chars(&q, &chars_of("&title="));
    q = concat_chars(&q, &chars_of(title_enc.as_str()));
    q = concat_chars(&q, &chars_of("&full="));
    q = concat_chars(&q, &chars_of(full_enc.as_str()));
    q = concat_chars(&q, &chars_of("&time="));
    q = concat_chars(&q, &chars_of(time));
    string_of(&q)
}

} // verus!
