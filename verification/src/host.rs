//! Host-owned freshness: the single-flight lock's body and when a held lock
//! counts as abandoned, and how a group `ensure` reports its failures.

use vstd::prelude::*;
use crate::scope::ensure_failures;
use crate::text::{
    all_digits, chars_of, decimal, digits_value, is_digit, join, lemma_digits_value_prefix, push_all,
    push_decimal, split_char, split_char_exec, str_views, string_of, trim_exec, trim_ws, views,
};

verus! {

/// A lock older than this (a crashed writer's) may be taken over.
pub const LOCK_TTL_MS: u128 = 120_000;

/// `str::parse::<u128>`: an optional `+`, then only digits, within range.
pub open spec fn parse_u128(s: Seq<char>) -> Option<nat> {
    let ds = if s.len() > 0 && s[0] == '+' {
        s.subrange(1, s.len() as int)
    } else {
        s
    };
    if ds.len() == 0 || !all_digits(ds) || digits_value(ds) > u128::MAX {
        None
    } else {
        Some(digits_value(ds) as nat)
    }
}

/// The timestamp a lock body records: the second `:`-separated field of
/// the trimmed text.
pub open spec fn lock_stamp(body: Seq<char>) -> Option<nat> {
    let parts = split_char(trim_ws(body), ':');
    if parts.len() < 2 {
        None
    } else {
        parse_u128(parts[1])
    }
}

/// A lock is abandoned when it cannot be read, has no readable timestamp,
/// or is older than the TTL.
pub open spec fn lock_is_stale_spec(body: Option<Seq<char>>, now_ms: nat) -> bool {
    match body {
        None => true,
        Some(b) => match lock_stamp(b) {
            Some(ts) => (if now_ms >= ts {
                now_ms - ts
            } else {
                0
            }) > LOCK_TTL_MS,
            None => true,
        },
    }
}

fn parse_u128_exec(s: &[char]) -> (r: Option<u128>)
    ensures
        match r {
            Some(v) => parse_u128(s@) == Some(v as nat),
            None => parse_u128(s@) is None,
        },
{
    let n = s.len();
    let start: usize = if n > 0 && s[0] == '+' {
        1
    } else {
        0
    };
    let ghost ds = s@.subrange(start as int, n as int);
    assert(start == 0 ==> ds =~= s@);
    assert(ds == (if s@.len() > 0 && s@[0] == '+' {
        s@.subrange(1, s@.len() as int)
    } else {
        s@
    }));
    if start >= n {
        return None;
    }
    let mut acc: u128 = 0;
    let mut i: usize = start;
    while i < n
        invariant
            start <= i <= n,
            n == s.len(),
            ds == s@.subrange(start as int, n as int),
            ds == (if s@.len() > 0 && s@[0] == '+' {
                s@.subrange(1, s@.len() as int)
            } else {
                s@
            }),
            acc == digits_value(ds.take(i - start)),
            forall|k: int| 0 <= k < i - start ==> is_digit(#[trigger] ds[k]),
        decreases n - i,
    {
        let c = s[i];
        assert(ds[i - start] == c);
        if !('0' <= c && c <= '9') {
            assert(!is_digit(ds[i - start]));
            assert(!all_digits(ds));
            return None;
        }
        let d: u128 = ((c as u32) - ('0' as u32)) as u128;
        assert(ds.take(i + 1 - start).drop_last() =~= ds.take(i - start));
        assert(ds.take(i + 1 - start).last() == c);
        assert(digits_value(ds.take(i + 1 - start)) == acc * 10 + d);
        if acc > (u128::MAX - d) / 10 {
            assert(acc * 10 + d > u128::MAX) by (nonlinear_arith)
                requires
                    acc > (u128::MAX - d) / 10,
                    d <= 9,
            ;
            proof {
                if all_digits(ds) {
                    lemma_digits_value_prefix(ds, i + 1 - start);
                    assert(digits_value(ds) > u128::MAX);
                }
            }
            return None;
        }
        assert(acc * 10 + d <= u128::MAX) by (nonlinear_arith)
            requires
                acc <= (u128::MAX - d) / 10,
                d <= 9,
        ;
        acc = acc * 10 + d;
        i += 1;
    }
    assert(ds.take(n - start) =~= ds);
    Some(acc)
}

/// Is a held lock abandoned? `body` is its text, none when unreadable.
pub fn lock_is_stale(body: Option<&str>, now_ms: u128) -> (r: bool)
    ensures
        r == lock_is_stale_spec(match body {
            Some(b) => Some(b@),
            None => None,
        }, now_ms as nat),
{
    let b = match body {
        Some(b) => b,
        None => return true,
    };
    let v = chars_of(b);
    let t = trim_exec(v.as_slice());
    let parts = split_char_exec(t.as_slice(), ':');
    if parts.len() < 2 {
        return true;
    }
    match parse_u128_exec(parts[1].as_slice()) {
        Some(ts) => now_ms.saturating_sub(ts) > LOCK_TTL_MS,
        None => true,
    }
}

/// The lock file's text: `{pid}:{now_ms}` and a newline.
pub fn lock_body(pid: u32, now_ms: u64) -> (r: String)
    ensures
        r@ == decimal(pid as nat) + ":"@ + decimal(now_ms as nat) + "\n"@,
{
    let mut v: Vec<char> = Vec::new();
    push_decimal(&mut v, pid as u64);
    v.push(':');
    push_decimal(&mut v, now_ms);
    v.push('\n');
    proof {
        reveal_strlit(":");
        reveal_strlit("\n");
    }
    assert(v@ =~= decimal(pid as nat) + ":"@ + decimal(now_ms as nat) + "\n"@);
    string_of(&v)
}

/// What a group `ensure` reports from each root's outcome: success when all
/// succeeded, else how many failed and each `{root}: {error}`.
pub fn ensure_many(outcomes: &[(String, Result<(), String>)]) -> (r: Result<(), String>)
    ensures
        (forall|i: int| 0 <= i < outcomes@.len() ==> (#[trigger] outcomes@[i]).1 is Ok) ==> r is Ok,
        (exists|i: int| 0 <= i < outcomes@.len() && (#[trigger] outcomes@[i]).1 is Err) ==> (r matches Err(
            e,
        ) && e@ == decimal(failures_of(outcomes@).len()) + " repo(s) failed: "@ + join(failures_of(outcomes@), "; "@)),
{
    let mut failures: Vec<String> = Vec::new();
    let mut i: usize = 0;
    while i < outcomes.len()
        invariant
            i <= outcomes@.len(),
            str_views(failures@) == failures_of(outcomes@.take(i as int)),
        decreases outcomes.len() - i,
    {
        assert(outcomes@.take(i + 1).drop_last() =~= outcomes@.take(i as int));
        assert(outcomes@.take(i + 1).last() == outcomes@[i as int]);
        match &outcomes[i].1 {
            Ok(()) => {},
            Err(e) => {
                let mut v = chars_of(outcomes[i].0.as_str());
                let w = chars_of(": ");
                push_all(&mut v, &w);
                let x = chars_of(e.as_str());
                push_all(&mut v, &x);
                let ghost f0 = str_views(failures@);
                failures.push(string_of(&v));
                assert(str_views(failures@) =~= f0.push(outcomes@[i as int].0@ + ": "@ + e@));
            },
        }
        i += 1;
    }
    assert(outcomes@.take(i as int) =~= outcomes@);
    proof {
        lemma_failures_empty(outcomes@);
    }
    match ensure_failures(&failures) {
        None => Ok(()),
        Some(msg) => Err(msg),
    }
}

/// The `{root}: {error}` line of every failed root, in order.
pub open spec fn failures_of(os: Seq<(String, Result<(), String>)>) -> Seq<Seq<char>>
    decreases os.len(),
{
    if os.len() == 0 {
        Seq::empty()
    } else {
        failures_of(os.drop_last()) + match os.last().1 {
            Ok(()) => Seq::empty(),
            Err(e) => seq![os.last().0@ + ": "@ + e@],
        }
    }
}

proof fn lemma_failures_empty(os: Seq<(String, Result<(), String>)>)
    ensures
        (failures_of(os).len() == 0) == (forall|i: int| 0 <= i < os.len() ==> (#[trigger] os[i]).1 is Ok),
    decreases os.len(),
{
    if os.len() > 0 {
        lemma_failures_empty(os.drop_last());
        assert forall|i: int| 0 <= i < os.len() - 1 implies (#[trigger] os.drop_last()[i]).1 == os[i].1 by {}
        if forall|i: int| 0 <= i < os.len() ==> (#[trigger] os[i]).1 is Ok {
            assert(os.last().1 is Ok);
            assert forall|i: int| 0 <= i < os.drop_last().len() implies (#[trigger] os.drop_last()[i]).1 is Ok by {
                assert(os.drop_last()[i] == os[i]);
            }
        } else {
            let k = choose|i: int| 0 <= i < os.len() && !((#[trigger] os[i]).1 is Ok);
            if k < os.len() - 1 {
                assert(os.drop_last()[k] == os[k]);
            }
        }
    }
}

} // verus!
