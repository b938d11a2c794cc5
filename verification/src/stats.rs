//! The memory figures reported on the diagnostic endpoint.  The raw numbers
//! (allocator counters, the resident-set reading, the kernel's page size)
//! are handed in by the caller; everything from there — the derived heap
//! figures, the parsing of the statm line, and the fixed-point rendering in
//! mebibytes — is computed here.

use vstd::prelude::*;

use crate::paths::is_space;
use crate::paths::is_space_char;
use crate::paths::trim_start_spec;

verus! {

/// The memory block of the diagnostic report, each figure rendered as
/// `<whole>.<two digits> MB`.
pub struct MemoryStats {
    pub rss: String,
    pub heap_used: String,
    pub heap_total: String,
}

/// The whole diagnostic report.
pub struct StatsResponse {
    pub runtime: String,
    pub memory: MemoryStats,
}

/// Heap bytes still in use: allocated minus deallocated, floored at zero.
pub open spec fn heap_in_use(allocated: u64, deallocated: u64) -> u64 {
    if allocated >= deallocated {
        (allocated - deallocated) as u64
    } else {
        0u64
    }
}

/// The larger of total allocations and bytes still in use.
pub open spec fn heap_high_water(allocated: u64, deallocated: u64) -> u64 {
    let in_use = heap_in_use(allocated, deallocated);
    if allocated >= in_use {
        allocated
    } else {
        in_use
    }
}

/// Derives the (in use, high water) heap figures from the allocator's raw
/// counters.
pub fn heap_bytes(bytes_allocated: u64, bytes_deallocated: u64) -> (r: (u64, u64))
    ensures
        r.0 == heap_in_use(bytes_allocated, bytes_deallocated),
        r.1 == heap_high_water(bytes_allocated, bytes_deallocated),
{
    let in_use = if bytes_allocated >= bytes_deallocated {
        bytes_allocated - bytes_deallocated
    } else {
        0
    };
    let total = if bytes_allocated >= in_use {
        bytes_allocated
    } else {
        in_use
    };
    (in_use, total)
}

/// A decimal digit.
pub open spec fn is_digit(c: char) -> bool {
    '0' <= c && c <= '9'
}

/// The numeric value of a digit character.
pub open spec fn digit_val(c: char) -> int {
    c as u32 - 48
}

/// The number a digit string denotes.
pub open spec fn digits_value(s: Seq<char>) -> int
    decreases s.len(),
{
    if s.len() == 0 {
        0int
    } else {
        digits_value(s.drop_last()) * 10 + digit_val(s.last())
    }
}

/// A non-empty string of digits.
pub open spec fn all_digits(s: Seq<char>) -> bool {
    s.len() > 0 && forall|i: int| 0 <= i < s.len() ==> is_digit(#[trigger] s[i])
}

/// What parsing a decimal number returns: the value, unless the string is
/// not a non-empty digit string or the value does not fit.
pub open spec fn parse_u64_spec(s: Seq<char>) -> Option<u64> {
    if !all_digits(s) {
        None
    } else if digits_value(s) > u64::MAX {
        None
    } else {
        Some(digits_value(s) as u64)
    }
}

proof fn lemma_digits_value_nonneg(s: Seq<char>)
    requires
        forall|i: int| 0 <= i < s.len() ==> is_digit(#[trigger] s[i]),
    ensures
        digits_value(s) >= 0,
    decreases s.len(),
{
    if s.len() > 0 {
        lemma_digits_value_nonneg(s.drop_last());
    }
}

proof fn lemma_digits_value_take(s: Seq<char>, k: int)
    requires
        0 <= k <= s.len(),
        forall|i: int| 0 <= i < s.len() ==> is_digit(#[trigger] s[i]),
    ensures
        digits_value(s.take(k)) <= digits_value(s),
    decreases s.len() - k,
{
    if k < s.len() {
        lemma_digits_value_take(s, k + 1);
        assert(s.take(k + 1).drop_last() =~= s.take(k));
        assert(forall|i: int| 0 <= i < k ==> is_digit(#[trigger] s.take(k)[i]));
        lemma_digits_value_nonneg(s.take(k));
        assert(digits_value(s.take(k + 1)) == digits_value(s.take(k)) * 10 + digit_val(
            s[k],
        ));
        assert(is_digit(s[k]));
        assert(digit_val(s[k]) >= 0);
        assert(digits_value(s.take(k)) <= digits_value(s.take(k)) * 10) by (nonlinear_arith)
            requires
                digits_value(s.take(k)) >= 0,
        ;
    } else {
        assert(s.take(k) =~= s);
    }
}

/// Parses a non-empty decimal digit string as an unsigned number.
pub fn parse_u64(s: &str) -> (r: Option<u64>)
    ensures
        r == parse_u64_spec(s@),
{
    let n = s.unicode_len();
    if n == 0 {
        return None;
    }
    let mut val: u64 = 0;
    let mut i: usize = 0;
    proof {
        assert(s@.take(0) =~= Seq::<char>::empty());
    }
    while i < n
        invariant
            n == s@.len(),
            i <= n,
            forall|k: int| 0 <= k < i ==> is_digit(#[trigger] s@[k]),
            val == digits_value(s@.take(i as int)),
        decreases n - i,
    {
        let c = s.get_char(i);
        if !('0' <= c && c <= '9') {
            proof {
                assert(!all_digits(s@));
            }
            return None;
        }
        let d = (c as u32 - 48) as u64;
        let wide = (val as u128) * 10 + (d as u128);
        proof {
            assert(s@.take(i as int + 1).drop_last() =~= s@.take(i as int));
            assert(s@.take(i as int + 1).last() == s@[i as int]);
        }
        if wide > u64::MAX as u128 {
            proof {
                if all_digits(s@) {
                    lemma_digits_value_take(s@, i as int + 1);
                }
            }
            return None;
        }
        val = wide as u64;
        i = i + 1;
    }
    proof {
        assert(s@.take(n as int) =~= s@);
        lemma_digits_value_nonneg(s@);
    }
    Some(val)
}

/// The rest of `s` after its leading run of non-space characters.
pub open spec fn drop_token(s: Seq<char>) -> Seq<char>
    decreases s.len(),
{
    if s.len() > 0 && !is_space_char(s[0]) {
        drop_token(s.drop_first())
    } else {
        s
    }
}

/// The leading run of non-space characters of `s`.
pub open spec fn take_token(s: Seq<char>) -> Seq<char>
    decreases s.len(),
{
    if s.len() > 0 && !is_space_char(s[0]) {
        seq![s[0]] + take_token(s.drop_first())
    } else {
        Seq::<char>::empty()
    }
}

/// The second white-space-separated field of `s`, empty when there is none.
pub open spec fn second_field(s: Seq<char>) -> Seq<char> {
    take_token(trim_start_spec(drop_token(trim_start_spec(s))))
}

/// What the resident-set computation returns for a statm line and a page
/// size: absent unless the page size is positive and the second field is a
/// number; the product saturates at the largest representable value.
pub open spec fn rss_from_statm(statm: Seq<char>, page_size: int) -> Option<u64> {
    if page_size <= 0 {
        None
    } else {
        match parse_u64_spec(second_field(statm)) {
            None => None,
            Some(pages) => Some(
                if pages * page_size > u64::MAX {
                    u64::MAX
                } else {
                    (pages * page_size) as u64
                },
            ),
        }
    }
}

proof fn lemma_token_range(s: Seq<char>, j: int, e: int)
    requires
        0 <= j <= e <= s.len(),
        forall|k: int| j <= k < e ==> !is_space_char(s[k]),
        e == s.len() || is_space_char(s[e]),
    ensures
        take_token(s.skip(j)) =~= s.subrange(j, e),
        drop_token(s.skip(j)) =~= s.skip(e),
    decreases e - j,
{
    if j == e {
        if e == s.len() {
            assert(s.skip(j) =~= Seq::<char>::empty());
        } else {
            assert(s.skip(j)[0] == s[e]);
        }
    } else {
        assert(s.skip(j)[0] == s[j]);
        assert(s.skip(j).drop_first() =~= s.skip(j + 1));
        lemma_token_range(s, j + 1, e);
    }
}

/// Computes the resident-set size in bytes from the contents of the
/// process's statm line and the kernel page size: the second field (pages)
/// times the page size, saturating.
pub fn linux_rss_bytes(statm: &str, page_size: i64) -> (r: Option<u64>)
    ensures
        r == rss_from_statm(statm@, page_size as int),
{
    if page_size <= 0 {
        return None;
    }
    let ghost s = statm@;
    let n = statm.unicode_len();
    let mut a: usize = 0;
    proof {
        assert(s.skip(0) =~= s);
    }
    while a < n && is_space(statm.get_char(a))
        invariant
            n == s.len(),
            statm@ == s,
            a <= n,
            trim_start_spec(s) == trim_start_spec(s.skip(a as int)),
        decreases n - a,
    {
        proof {
            assert(s.skip(a as int)[0] == s[a as int]);
            assert(s.skip(a as int).drop_first() =~= s.skip(a as int + 1));
        }
        a = a + 1;
    }
    proof {
        if a == n {
            assert(s.skip(a as int) =~= Seq::<char>::empty());
        }
        assert(trim_start_spec(s) =~= s.skip(a as int));
    }
    let mut b = a;
    while b < n && !is_space(statm.get_char(b))
        invariant
            n == s.len(),
            statm@ == s,
            a <= b <= n,
            forall|k: int| a <= k < b ==> !is_space_char(s[k]),
        decreases n - b,
    {
        b = b + 1;
    }
    proof {
        lemma_token_range(s, a as int, b as int);
    }
    let mut c = b;
    while c < n && is_space(statm.get_char(c))
        invariant
            n == s.len(),
            statm@ == s,
            b <= c <= n,
            trim_start_spec(s.skip(b as int)) == trim_start_spec(s.skip(c as int)),
        decreases n - c,
    {
        proof {
            assert(s.skip(c as int)[0] == s[c as int]);
            assert(s.skip(c as int).drop_first() =~= s.skip(c as int + 1));
        }
        c = c + 1;
    }
    proof {
        if c == n {
            assert(s.skip(c as int) =~= Seq::<char>::empty());
        }
        assert(trim_start_spec(s.skip(b as int)) =~= s.skip(c as int));
    }
    let mut d = c;
    while d < n && !is_space(statm.get_char(d))
        invariant
            n == s.len(),
            statm@ == s,
            c <= d <= n,
            forall|k: int| c <= k < d ==> !is_space_char(s[k]),
        decreases n - d,
    {
        d = d + 1;
    }
    proof {
        lemma_token_range(s, c as int, d as int);
        assert(second_field(s) =~= s.subrange(c as int, d as int));
    }
    let token = statm.substring_char(c, d);
    match parse_u64(token) {
        None => None,
        Some(pages) => {
            proof {
                assert((pages as int) * (page_size as int)
                    <= 18446744073709551615int * 9223372036854775807int) by (nonlinear_arith)
                    requires
                        pages as int <= 18446744073709551615int,
                        0 < page_size as int <= 9223372036854775807int,
                ;
            }
            let wide = (pages as u128) * (page_size as u128);
            if wide > u64::MAX as u128 {
                Some(u64::MAX)
            } else {
                Some(wide as u64)
            }
        },
    }
}

/// The character for one decimal digit.
pub open spec fn digit_char(d: int) -> char {
    ((48 + d) as u8) as char
}

/// The decimal rendering of a number.
pub open spec fn dec_str(n: int) -> Seq<char>
    decreases n,
{
    if n < 10 {
        seq![digit_char(n)]
    } else {
        dec_str(n / 10).push(digit_char(n % 10))
    }
}

fn digit_str(d: u64) -> (r: &'static str)
    requires
        d < 10,
    ensures
        r@ == seq![digit_char(d as int)],
{
    if d == 0 {
        proof {
            reveal_strlit("0");
            assert("0"@ =~= seq![digit_char(0)]);
        }
        "0"
    } else if d == 1 {
        proof {
            reveal_strlit("1");
            assert("1"@ =~= seq![digit_char(1)]);
        }
        "1"
    } else if d == 2 {
        proof {
            reveal_strlit("2");
            assert("2"@ =~= seq![digit_char(2)]);
        }
        "2"
    } else if d == 3 {
        proof {
            reveal_strlit("3");
            assert("3"@ =~= seq![digit_char(3)]);
        }
        "3"
    } else if d == 4 {
        proof {
            reveal_strlit("4");
            assert("4"@ =~= seq![digit_char(4)]);
        }
        "4"
    } else if d == 5 {
        proof {
            reveal_strlit("5");
            assert("5"@ =~= seq![digit_char(5)]);
        }
        "5"
    } else if d == 6 {
        proof {
            reveal_strlit("6");
            assert("6"@ =~= seq![digit_char(6)]);
        }
        "6"
    } else if d == 7 {
        proof {
            reveal_strlit("7");
            assert("7"@ =~= seq![digit_char(7)]);
        }
        "7"
    } else if d == 8 {
        proof {
            reveal_strlit("8");
            assert("8"@ =~= seq![digit_char(8)]);
        }
        "8"
    } else {
        proof {
            reveal_strlit("9");
            assert("9"@ =~= seq![digit_char(9)]);
        }
        "9"
    }
}

fn push_dec(out: &mut String, n: u64)
    ensures
        final(out)@ == old(out)@ + dec_str(n as int),
    decreases n,
{
    if n < 10 {
        out.append(digit_str(n));
    } else {
        push_dec(out, n / 10);
        out.append(digit_str(n % 10));
        proof {
            assert(old(out)@ + dec_str((n / 10) as int) + seq![digit_char((n % 10) as int)]
                =~= old(out)@ + dec_str(n as int));
        }
    }
}

/// The number of hundredths of a mebibyte that `bytes` comes to, rounded to
/// nearest with ties to even.
pub open spec fn mb_hundredths(bytes: u64) -> int {
    let scaled = (bytes as int) * 100;
    let q = scaled / 1048576;
    let r = scaled % 1048576;
    if r * 2 > 1048576 || (r * 2 == 1048576 && q % 2 == 1) {
        q + 1
    } else {
        q
    }
}

/// The rendering `<whole>.<two digits> MB` of `bytes` in mebibytes.
pub open spec fn format_mb_spec(bytes: u64) -> Seq<char> {
    let h = mb_hundredths(bytes);
    dec_str(h / 100) + "."@ + dec_str((h % 100) / 10) + dec_str(h % 10) + " MB"@
}

/// Renders a byte count in mebibytes with two decimals.
pub fn format_mb(bytes: u64) -> (r: String)
    ensures
        r@ == format_mb_spec(bytes),
{
    let scaled = (bytes as u128) * 100;
    let q = scaled / 1048576;
    let rem = scaled % 1048576;
    proof {
        assert(scaled <= 18446744073709551615int * 100);
        assert(q * 1048576 + rem == scaled) by (nonlinear_arith)
            requires
                q == scaled / 1048576,
                rem == scaled % 1048576,
                scaled >= 0,
        ;
        assert(q <= scaled) by (nonlinear_arith)
            requires
                q * 1048576 + rem == scaled,
                rem >= 0,
                q >= 0,
        ;
    }
    let q64 = q as u64;
    let hundredths = if rem * 2 > 1048576 || (rem * 2 == 1048576 && q64 % 2 == 1) {
        q64 + 1
    } else {
        q64
    };
    proof {
        assert(hundredths as int == mb_hundredths(bytes));
    }
    let whole = hundredths / 100;
    let frac = hundredths % 100;
    let mut out = String::new();
    push_dec(&mut out, whole);
    out.append(".");
    push_dec(&mut out, frac / 10);
    push_dec(&mut out, frac % 10);
    out.append(" MB");
    proof {
        assert((frac / 10) as int == (mb_hundredths(bytes) % 100) / 10);
        assert((frac % 10) as int == mb_hundredths(bytes) % 10);
        assert(out@ =~= format_mb_spec(bytes));
    }
    out
}

/// The resident-set figure that gets reported: the kernel reading when
/// available, the fallback estimate otherwise, and the larger heap figure
/// when neither exists.
pub open spec fn chosen_rss(
    probe: Option<u64>,
    fallback: Option<u64>,
    heap_used: u64,
    heap_total: u64,
) -> u64 {
    match probe {
        Some(v) => v,
        None => match fallback {
            Some(v) => v,
            None => if heap_total >= heap_used {
                heap_total
            } else {
                heap_used
            },
        },
    }
}

/// Assembles the diagnostic report from the allocator counters and the
/// optional resident-set readings.
pub fn collect(
    bytes_allocated: u64,
    bytes_deallocated: u64,
    rss_probe: Option<u64>,
    rss_fallback: Option<u64>,
) -> (r: StatsResponse)
    ensures
        r.runtime@ == "rust/axum"@,
        r.memory.rss@ == format_mb_spec(
            chosen_rss(
                rss_probe,
                rss_fallback,
                heap_in_use(bytes_allocated, bytes_deallocated),
                heap_high_water(bytes_allocated, bytes_deallocated),
            ),
        ),
        r.memory.heap_used@ == format_mb_spec(heap_in_use(bytes_allocated, bytes_deallocated)),
        r.memory.heap_total@ == format_mb_spec(
            heap_high_water(bytes_allocated, bytes_deallocated),
        ),
{
    let (heap_used, heap_total) = heap_bytes(bytes_allocated, bytes_deallocated);
    let rss = match rss_probe {
        Some(v) => v,
        None => match rss_fallback {
            Some(v) => v,
            None => if heap_total >= heap_used {
                heap_total
            } else {
                heap_used
            },
        },
    };
    let high = if heap_total >= heap_used {
        heap_total
    } else {
        heap_used
    };
    StatsResponse {
        runtime: "rust/axum".to_owned(),
        memory: MemoryStats {
            rss: format_mb(rss),
            heap_used: format_mb(heap_used),
            heap_total: format_mb(high),
        },
    }
}

} // verus!
