//! Worker-pool sizing.  Hashing is I/O-bound, so the pool defaults to the
//! smaller of the machine's CPU count and four; a configured override — a
//! plain decimal number — replaces the default, and an unparseable override
//! falls back to it.  The caller reads the override once at start-up and
//! hands it in here.

use vstd::prelude::*;
use vstd::string::StrSliceExecFns;

verus! {

/// A decimal digit.
pub open spec fn is_digit(c: char) -> bool {
    48 <= c as u32 <= 57
}

/// Every character is a decimal digit.
pub open spec fn all_digits(s: Seq<char>) -> bool {
    forall|i: int| 0 <= i < s.len() ==> is_digit(#[trigger] s[i])
}

/// The number a digit string denotes, most significant digit first.
pub open spec fn dec_value(s: Seq<char>) -> int
    decreases s.len(),
{
    if s.len() == 0 {
        0
    } else {
        dec_value(s.drop_last()) * 10 + (s.last() as u32 - 48)
    }
}

/// A well-formed thread-count override: nonempty, all digits, in range.
pub open spec fn valid_count(s: Seq<char>) -> bool {
    s.len() > 0 && all_digits(s) && dec_value(s) <= u64::MAX
}

/// The pool size to use: a well-formed override verbatim, else the smaller
/// of the CPU count and four.
pub open spec fn spec_pool_size(env: Option<Seq<char>>, cpus: u64) -> int {
    match env {
        Some(s) => if valid_count(s) {
            dec_value(s)
        } else {
            default_pool_size(cpus)
        },
        None => default_pool_size(cpus),
    }
}

/// The default pool size: min(cpus, 4).
pub open spec fn default_pool_size(cpus: u64) -> int {
    if cpus < 4 {
        cpus as int
    } else {
        4
    }
}

/// A digit string's value never shrinks when the string grows.
proof fn lemma_dec_value_nonneg(s: Seq<char>)
    requires
        all_digits(s),
    ensures
        dec_value(s) >= 0,
    decreases s.len(),
{
    if s.len() > 0 {
        assert(is_digit(s.last()));
        assert(all_digits(s.drop_last())) by {
            assert(forall|i: int| 0 <= i < s.len() - 1 ==> s.drop_last()[i] == s[i]);
        }
        lemma_dec_value_nonneg(s.drop_last());
    }
}

/// A prefix never denotes more than the whole digit string.
proof fn lemma_dec_value_prefix(s: Seq<char>, i: int)
    requires
        all_digits(s),
        0 <= i <= s.len(),
    ensures
        dec_value(s.subrange(0, i)) <= dec_value(s),
    decreases s.len() - i,
{
    if i < s.len() {
        let a = s.subrange(0, i);
        let b = s.subrange(0, i + 1);
        assert(b.drop_last() =~= a);
        assert(b.last() == s[i]);
        assert(is_digit(s[i]));
        assert(all_digits(a)) by {
            assert(forall|k: int| 0 <= k < i ==> a[k] == s[k]);
        }
        lemma_dec_value_nonneg(a);
        assert(dec_value(b) == dec_value(a) * 10 + (s[i] as u32 - 48));
        assert(dec_value(a) <= dec_value(a) * 10) by (nonlinear_arith)
            requires
                dec_value(a) >= 0,
        ;
        lemma_dec_value_prefix(s, i + 1);
    } else {
        assert(s.subrange(0, i) =~= s);
    }
}

/// Parse a thread-count override: the number a nonempty digit string
/// denotes, or nothing when the string is empty, holds a non-digit, or
/// overflows.
pub fn parse_thread_count(s: &str) -> (r: Option<u64>)
    ensures
        match r {
            Some(v) => valid_count(s@) && v == dec_value(s@),
            None => !valid_count(s@),
        },
{
    let n = s.unicode_len();
    if n == 0 {
        return None;
    }
    let mut acc: u64 = 0;
    let mut i: usize = 0;
    while i < n
        invariant
            n == s@.len(),
            i <= n,
            all_digits(s@.subrange(0, i as int)),
            acc == dec_value(s@.subrange(0, i as int)),
        decreases n - i,
    {
        let c = s.get_char(i);
        let v = c as u32;
        if v < 48 || v > 57 {
            proof {
                assert(!is_digit(s@[i as int]));
            }
            return None;
        }
        let d = (v - 48) as u64;
        let ghost pre = s@.subrange(0, i as int);
        let ghost cur = s@.subrange(0, i + 1);
        proof {
            assert(cur.drop_last() =~= pre);
            assert(cur.last() == s@[i as int]);
            assert(all_digits(cur)) by {
                assert(forall|k: int| 0 <= k < i ==> cur[k] == pre[k]);
            }
        }
        if acc > (u64::MAX - d) / 10 {
            proof {
                assert(dec_value(cur) == acc * 10 + d);
                assert(acc * 10 + d > u64::MAX) by (nonlinear_arith)
                    requires
                        acc > (u64::MAX - d) / 10,
                        d <= 9,
                ;
                if all_digits(s@) {
                    lemma_dec_value_prefix(s@, i + 1);
                    assert(s@.subrange(0, n as int) =~= s@);
                }
            }
            return None;
        }
        proof {
            assert(acc * 10 + d <= u64::MAX) by (nonlinear_arith)
                requires
                    acc <= (u64::MAX - d) / 10,
                    d <= 9,
            ;
        }
        acc = acc * 10 + d;
        i += 1;
    }
    proof {
        assert(s@.subrange(0, n as int) =~= s@);
    }
    Some(acc)
}

/// The worker-pool size for a snapshot pass, from the optional configured
/// override and the machine's CPU count.
pub fn worker_pool_size(env_value: Option<&str>, cpus: u64) -> (r: u64)
    ensures
        r == spec_pool_size(
            match env_value {
                Some(s) => Some(s@),
                None => None,
            },
            cpus,
        ),
{
    match env_value {
        Some(s) => {
            match parse_thread_count(s) {
                Some(v) => v,
                None => if cpus < 4 {
                    cpus
                } else {
                    4
                },
            }
        },
        None => if cpus < 4 {
            cpus
        } else {
            4
        },
    }
}

} // verus!
