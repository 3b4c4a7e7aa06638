//! Pure address-string utilities: port rewriting and syntactic
//! IPv4/IPv6 literal classification.  No resolution, no I/O.

use vstd::prelude::*;
use vstd::string::StrSliceExecFns;
use vstd::string::StringExecFns;

verus! {

/// A decimal digit `0`..`9`.
pub open spec fn is_dec_digit(c: char) -> bool {
    48 <= c as u32 <= 57
}

/// A hexadecimal digit, either case.
pub open spec fn is_hex_digit(c: char) -> bool {
    is_dec_digit(c) || (97 <= c as u32 <= 102) || (65 <= c as u32 <= 70)
}

/// Every character of `s` is a decimal digit.
pub open spec fn all_dec_digits(s: Seq<char>) -> bool {
    forall|i: int| 0 <= i < s.len() ==> is_dec_digit(#[trigger] s[i])
}

/// The value of a digit character; 0 for any other character (callers
/// guard with `all_dec_digits`).
pub open spec fn digit_val(c: char) -> nat {
    if is_dec_digit(c) {
        (c as u32 - 48) as nat
    } else {
        0
    }
}

/// The number an all-digit string denotes, most significant digit
/// first.
pub open spec fn dec_val(s: Seq<char>) -> nat
    decreases s.len(),
{
    if s.len() == 0 {
        0
    } else {
        10 * dec_val(s.drop_last()) + digit_val(s.last())
    }
}

/// The port an explicit all-digit port string denotes, or 0 when the
/// string is empty, holds a non-digit, or does not fit an `i32` — the
/// cases in which a trailing port is treated as absent.
pub open spec fn port_of(s: Seq<char>) -> int {
    if s.len() > 0 && all_dec_digits(s) && dec_val(s) <= 0x7FFFFFFF {
        dec_val(s) as int
    } else {
        0
    }
}

/// The digit character for a value 0..9.
pub open spec fn digit_char(d: nat) -> char {
    if d == 0 {
        '0'
    } else if d == 1 {
        '1'
    } else if d == 2 {
        '2'
    } else if d == 3 {
        '3'
    } else if d == 4 {
        '4'
    } else if d == 5 {
        '5'
    } else if d == 6 {
        '6'
    } else if d == 7 {
        '7'
    } else if d == 8 {
        '8'
    } else {
        '9'
    }
}

/// The decimal rendering of `n`, without leading zeros (except for 0
/// itself).
pub open spec fn dec_str(n: nat) -> Seq<char>
    decreases n,
{
    if n < 10 {
        seq![digit_char(n)]
    } else {
        dec_str(n / 10) + seq![digit_char(n % 10)]
    }
}

/// The decimal rendering of a possibly negative value.
pub open spec fn int_str(v: int) -> Seq<char> {
    if v < 0 {
        seq!['-'] + dec_str((-v) as nat)
    } else {
        dec_str(v as nat)
    }
}

/// Index of the first occurrence of `c` in `s`, or -1 if there is none.
pub open spec fn first_index_of(s: Seq<char>, c: char) -> int
    decreases s.len(),
{
    if s.len() == 0 {
        -1
    } else if s[0] == c {
        0
    } else {
        let r = first_index_of(s.skip(1), c);
        if r < 0 {
            -1
        } else {
            1 + r
        }
    }
}

/// `s` holds `c` somewhere.
pub open spec fn has_char(s: Seq<char>, c: char) -> bool {
    exists|i: int| 0 <= i < s.len() && #[trigger] s[i] == c
}

proof fn lemma_first_index_found(s: Seq<char>, c: char, j: int)
    requires
        0 <= j < s.len(),
        s[j] == c,
        forall|i: int| 0 <= i < j ==> s[i] != c,
    ensures
        first_index_of(s, c) == j,
    decreases j,
{
    if j > 0 {
        assert(s[0] != c);
        lemma_first_index_found(s.skip(1), c, j - 1);
    }
}

proof fn lemma_first_index_none(s: Seq<char>, c: char)
    requires
        forall|i: int| 0 <= i < s.len() ==> s[i] != c,
    ensures
        first_index_of(s, c) == -1,
    decreases s.len(),
{
    if s.len() > 0 {
        assert(forall|i: int| 0 <= i < s.skip(1).len() ==> s.skip(1)[i] != c);
        lemma_first_index_none(s.skip(1), c);
    }
}

proof fn lemma_first_index_props(s: Seq<char>, c: char)
    ensures
        first_index_of(s, c) >= 0 ==> first_index_of(s, c) < s.len() && s[first_index_of(s, c)]
            == c && forall|i: int| 0 <= i < first_index_of(s, c) ==> s[i] != c,
        first_index_of(s, c) < 0 ==> !has_char(s, c),
    decreases s.len(),
{
    if s.len() > 0 && s[0] != c {
        lemma_first_index_props(s.skip(1), c);
        let r = first_index_of(s.skip(1), c);
        if r < 0 {
            assert forall|i: int| 0 <= i < s.len() implies s[i] != c by {
                if i > 0 {
                    assert(s.skip(1)[i - 1] == s[i]);
                    if s[i] == c {
                        assert(has_char(s.skip(1), c));
                    }
                }
            }
        } else {
            assert(s[first_index_of(s, c)] == s.skip(1)[r]);
            assert forall|i: int| 0 <= i < first_index_of(s, c) implies s[i] != c by {
                if i > 0 {
                    assert(s.skip(1)[i - 1] == s[i]);
                }
            }
        }
    }
}

/// A value 0..9 as a one-character string slice.
fn digit_str(d: u64) -> (r: &'static str)
    requires
        d < 10,
    ensures
        r@ == seq![digit_char(d as nat)],
{
    proof {
        reveal_strlit("0");
        reveal_strlit("1");
        reveal_strlit("2");
        reveal_strlit("3");
        reveal_strlit("4");
        reveal_strlit("5");
        reveal_strlit("6");
        reveal_strlit("7");
        reveal_strlit("8");
        reveal_strlit("9");
    }
    if d == 0 {
        "0"
    } else if d == 1 {
        "1"
    } else if d == 2 {
        "2"
    } else if d == 3 {
        "3"
    } else if d == 4 {
        "4"
    } else if d == 5 {
        "5"
    } else if d == 6 {
        "6"
    } else if d == 7 {
        "7"
    } else if d == 8 {
        "8"
    } else {
        "9"
    }
}

/// Append the decimal rendering of `n` to `out`.
pub fn push_u64_dec(n: u64, out: &mut String)
    ensures
        final(out)@ == old(out)@ + dec_str(n as nat),
    decreases n,
{
    if n < 10 {
        let d = digit_str(n);
        out.append(d);
    } else {
        push_u64_dec(n / 10, out);
        let d = digit_str(n % 10);
        out.append(d);
    }
}

/// Append the decimal rendering of `v`, with a sign when negative.
pub fn push_i64_dec(v: i64, out: &mut String)
    requires
        v > i64::MIN,
    ensures
        final(out)@ == old(out)@ + int_str(v as int),
{
    if v < 0 {
        out.append("-");
        proof {
            reveal_strlit("-");
        }
        push_u64_dec((-v) as u64, out);
    } else {
        push_u64_dec(v as u64, out);
    }
}

/// How many leading characters of `s` are decimal digits.
pub open spec fn digits_prefix(s: Seq<char>) -> nat
    decreases s.len(),
{
    if s.len() > 0 && is_dec_digit(s[0]) {
        1 + digits_prefix(s.skip(1))
    } else {
        0
    }
}

/// `parts` dot-separated all-digit groups, the last optionally followed
/// by `:` and an all-digit port.
pub open spec fn ipv4_groups(s: Seq<char>, parts: nat) -> bool
    decreases parts,
{
    let k = digits_prefix(s) as int;
    if k == 0 {
        false
    } else if parts <= 1 {
        s.len() == k || (k + 1 < s.len() && s[k] == ':' && all_dec_digits(s.skip(k + 1)))
    } else {
        k < s.len() && s[k] == '.' && ipv4_groups(s.skip(k + 1), (parts - 1) as nat)
    }
}

/// Syntactic IPv4 literal: a dotted quad of digit groups, with an
/// optional `:port` suffix.
pub open spec fn is_ipv4_spec(s: Seq<char>) -> bool {
    ipv4_groups(s, 4)
}

/// An unbracketed IPv6 literal body: at least two characters, all of
/// them hexadecimal digits or `:`, with at least one `:`.
pub open spec fn ipv6_body(s: Seq<char>) -> bool {
    s.len() >= 2 && (forall|i: int|
        0 <= i < s.len() ==> is_hex_digit(#[trigger] s[i]) || s[i] == ':') && has_char(s, ':')
}

/// Syntactic IPv6 literal: either a bare body, or a bracketed body
/// `[body]`, optionally followed by `:` and an all-digit port.
pub open spec fn is_ipv6_spec(s: Seq<char>) -> bool {
    ipv6_body(s) || {
        let j = first_index_of(s, ']');
        &&& s.len() >= 1
        &&& s[0] == '['
        &&& j >= 1
        &&& ipv6_body(s.subrange(1, j))
        &&& (j == s.len() - 1 || (j + 2 < s.len() && s[j + 1] == ':' && all_dec_digits(
            s.skip(j + 2),
        )))
    }
}

/// Count of leading decimal digits of `s` from position `from` on.
fn digits_prefix_len(s: &str, from: usize) -> (r: usize)
    requires
        from <= s@.len(),
    ensures
        r == digits_prefix(s@.skip(from as int)),
        from + r <= s@.len(),
{
    let n = s.unicode_len();
    let mut j = from;
    loop
        invariant
            from <= j <= n == s@.len(),
            digits_prefix(s@.skip(from as int)) == j - from + digits_prefix(s@.skip(j as int)),
        decreases n - j,
    {
        if j == n {
            return j - from;
        }
        let c = s.get_char(j);
        let u = c as u32;
        if !(48 <= u && u <= 57) {
            assert(digits_prefix(s@.skip(j as int)) == 0);
            return j - from;
        }
        proof {
            assert(s@.skip(j as int).skip(1) =~= s@.skip(j as int + 1));
            assert(digits_prefix(s@.skip(j as int)) == 1 + digits_prefix(s@.skip(j as int + 1)));
        }
        j = j + 1;
    }
}

/// Are all characters from position `from` on decimal digits?
fn all_digits_from(s: &str, from: usize) -> (r: bool)
    requires
        from <= s@.len(),
    ensures
        r == all_dec_digits(s@.skip(from as int)),
{
    let n = s.unicode_len();
    let mut j = from;
    loop
        invariant
            from <= j <= n == s@.len(),
            forall|i: int| from <= i < j ==> is_dec_digit(#[trigger] s@[i]),
        decreases n - j,
    {
        if j == n {
            proof {
                assert forall|i: int| 0 <= i < s@.skip(from as int).len() implies is_dec_digit(
                    #[trigger] s@.skip(from as int)[i],
                ) by {
                    assert(s@.skip(from as int)[i] == s@[from + i]);
                }
            }
            return true;
        }
        let c = s.get_char(j);
        let u = c as u32;
        if !(48 <= u && u <= 57) {
            proof {
                assert(s@.skip(from as int)[j - from] == s@[j as int]);
            }
            return false;
        }
        j = j + 1;
    }
}

/// Index of the first occurrence of `c` from position `from` on, if
/// any.
fn find_char_from(s: &str, from: usize, c: char) -> (r: Option<usize>)
    requires
        from <= s@.len(),
    ensures
        match r {
            Some(j) => from <= j < s@.len() && s@[j as int] == c && forall|i: int|
                from <= i < j ==> s@[i] != c,
            None => forall|i: int| from <= i < s@.len() ==> s@[i] != c,
        },
{
    let n = s.unicode_len();
    let mut j = from;
    loop
        invariant
            from <= j <= n == s@.len(),
            forall|i: int| from <= i < j ==> s@[i] != c,
        decreases n - j,
    {
        if j == n {
            return None;
        }
        if s.get_char(j) == c {
            return Some(j);
        }
        j = j + 1;
    }
}

/// Parse the characters from `from` to the end as a decimal port;
/// 0 when empty, when a non-digit occurs, or when the value does not
/// fit an `i32`.
fn parse_port(s: &str, from: usize) -> (r: i32)
    requires
        from <= s@.len(),
    ensures
        r as int == port_of(s@.skip(from as int)),
        r >= 0,
{
    let n = s.unicode_len();
    let ghost t = s@.skip(from as int);
    if from == n {
        return 0;
    }
    let mut acc: u64 = 0;
    let mut j = from;
    loop
        invariant
            from < n,
            from <= j <= n == s@.len(),
            t == s@.skip(from as int),
            acc == dec_val(t.take(j - from)),
            acc <= 0x7FFFFFFF,
            forall|i: int| from <= i < j ==> is_dec_digit(#[trigger] s@[i]),
        decreases n - j,
    {
        if j == n {
            proof {
                assert(t.take(j - from) =~= t);
                assert(t.len() > 0);
                assert forall|i: int| 0 <= i < t.len() implies is_dec_digit(#[trigger] t[i]) by {
                    assert(t[i] == s@[from + i]);
                }
            }
            return acc as i32;
        }
        let c = s.get_char(j);
        let u = c as u32;
        if !(48 <= u && u <= 57) {
            proof {
                assert(t[j - from] == s@[j as int]);
                assert(!all_dec_digits(t));
            }
            return 0;
        }
        let d: u64 = (u - 48) as u64;
        proof {
            assert(t.take(j - from + 1).drop_last() =~= t.take(j - from));
            assert(t.take(j - from + 1).last() == s@[j as int]);
        }
        if 10 * acc + d > 0x7FFFFFFF {
            proof {
                lemma_dec_val_prefix_bound(t, j - from + 1);
            }
            return 0;
        }
        acc = 10 * acc + d;
        j = j + 1;
    }
}

/// If some prefix of `t` already denotes more than `i32::MAX`, then so
/// does `t` itself (when all of `t` is digits), so the port is treated
/// as absent.
proof fn lemma_dec_val_prefix_bound(t: Seq<char>, j: int)
    requires
        0 <= j <= t.len(),
    ensures
        dec_val(t.take(j)) <= dec_val(t),
    decreases t.len(),
{
    if j < t.len() {
        lemma_dec_val_prefix_bound(t.drop_last(), j);
        assert(t.drop_last().take(j) =~= t.take(j));
    } else {
        assert(t.take(j) =~= t);
    }
}

/// Is `s@.subrange(from, to)` an unbracketed IPv6 literal body?
fn ipv6_body_range(s: &str, from: usize, to: usize) -> (r: bool)
    requires
        from <= to <= s@.len(),
    ensures
        r == ipv6_body(s@.subrange(from as int, to as int)),
{
    let ghost t = s@.subrange(from as int, to as int);
    if to - from < 2 {
        return false;
    }
    let mut j = from;
    let mut seen_colon = false;
    loop
        invariant
            from <= j <= to <= s@.len(),
            to - from >= 2,
            t == s@.subrange(from as int, to as int),
            forall|i: int| from <= i < j ==> is_hex_digit(#[trigger] s@[i]) || s@[i] == ':',
            seen_colon == exists|i: int| from <= i < j && #[trigger] s@[i] == ':',
        decreases to - j,
    {
        if j == to {
            proof {
                assert forall|i: int| 0 <= i < t.len() implies is_hex_digit(#[trigger] t[i])
                    || t[i] == ':' by {
                    assert(t[i] == s@[from + i]);
                }
                if seen_colon {
                    let i0 = choose|i: int| from <= i < j && #[trigger] s@[i] == ':';
                    assert(t[i0 - from] == ':');
                    assert(has_char(t, ':'));
                } else {
                    assert forall|i: int| 0 <= i < t.len() implies #[trigger] t[i] != ':' by {
                        assert(t[i] == s@[from + i]);
                    }
                }
            }
            return seen_colon;
        }
        let c = s.get_char(j);
        let u = c as u32;
        let hex = (48 <= u && u <= 57) || (97 <= u && u <= 102) || (65 <= u && u <= 70);
        if !hex && c != ':' {
            proof {
                assert(t[j - from] == s@[j as int]);
            }
            return false;
        }
        if c == ':' {
            seen_colon = true;
        }
        j = j + 1;
    }
}

/// Syntactic IPv6 literal test; `is_ipv6_spec` is the definition.
pub fn is_ipv6_str(s: &str) -> (r: bool)
    ensures
        r == is_ipv6_spec(s@),
{
    let n = s.unicode_len();
    let whole = ipv6_body_range(s, 0, n);
    proof {
        assert(s@.subrange(0, n as int) =~= s@);
    }
    if whole {
        return true;
    }
    if n == 0 {
        return false;
    }
    if s.get_char(0) != '[' {
        return false;
    }
    match find_char_from(s, 0, ']') {
        None => {
            proof {
                lemma_first_index_none(s@, ']');
            }
            false
        },
        Some(j) => {
            proof {
                lemma_first_index_found(s@, ']', j as int);
            }
            let body_ok = ipv6_body_range(s, 1, j);
            if !body_ok {
                return false;
            }
            if j == n - 1 {
                return true;
            }
            if j + 2 < n {
                if s.get_char(j + 1) == ':' {
                    return all_digits_from(s, j + 2);
                }
            }
            false
        },
    }
}

/// One dotted group of an IPv4 literal, starting at `from`; recurses
/// through the remaining groups.
fn ipv4_groups_from(s: &str, from: usize, parts: u32) -> (r: bool)
    requires
        from <= s@.len(),
        parts >= 1,
    ensures
        r == ipv4_groups(s@.skip(from as int), parts as nat),
    decreases parts,
{
    let ghost t = s@.skip(from as int);
    let n = s.unicode_len();
    let k = digits_prefix_len(s, from);
    if k == 0 {
        return false;
    }
    if parts == 1 {
        if from + k == n {
            return true;
        }
        proof {
            assert(t[k as int] == s@[from + k]);
        }
        if from + k + 1 < n {
            if s.get_char(from + k) == ':' {
                let r = all_digits_from(s, from + k + 1);
                proof {
                    assert(t.skip(k as int + 1) =~= s@.skip(from + k + 1));
                }
                return r;
            }
        }
        false
    } else {
        proof {
            if (k as int) < t.len() {
                assert(t[k as int] == s@[from + k]);
            }
        }
        if from + k < n {
            if s.get_char(from + k) == '.' {
                let r = ipv4_groups_from(s, from + k + 1, parts - 1);
                proof {
                    assert(t.skip(k as int + 1) =~= s@.skip(from + k + 1));
                }
                return r;
            }
        }
        false
    }
}

/// Syntactic IPv4 literal test; `is_ipv4_spec` is the definition.
pub fn is_ipv4_str(s: &str) -> (r: bool)
    ensures
        r == is_ipv4_spec(s@),
{
    let r = ipv4_groups_from(s, 0, 4);
    proof {
        assert(s@.skip(0) =~= s@);
    }
    r
}

/// `check_port(host, port)`: an IPv6 literal host is bracketed and gets
/// `:port`; a host that already carries a `:` is left alone; any other
/// host gets `:port` appended.
pub open spec fn check_port_spec(host: Seq<char>, port: int) -> Seq<char> {
    if is_ipv6_spec(host) {
        if host.len() > 0 && host[0] == '[' {
            host
        } else {
            seq!['['] + host + seq![']', ':'] + int_str(port)
        }
    } else if has_char(host, ':') {
        host
    } else {
        host + seq![':'] + int_str(port)
    }
}

/// Normalize `host` to a `host:port` form, bracketing bare IPv6
/// literals; a host that already holds a `:` is returned unchanged.
pub fn check_port(host: &str, port: i32) -> (r: String)
    ensures
        r@ == check_port_spec(host@, port as int),
{
    let n = host.unicode_len();
    if is_ipv6_str(host) {
        if n > 0 && host.get_char(0) == '[' {
            return host.to_owned();
        }
        let mut out = String::from_str("[");
        out.append(host);
        out.append("]:");
        push_i64_dec(port as i64, &mut out);
        proof {
            reveal_strlit("[");
            reveal_strlit("]:");
            assert(out@ =~= check_port_spec(host@, port as int));
        }
        return out;
    }
    match find_char_from(host, 0, ':') {
        Some(j) => {
            proof {
                lemma_first_index_found(host@, ':', j as int);
            }
            host.to_owned()
        },
        None => {
            let mut out = host.to_owned();
            out.append(":");
            push_i64_dec(port as i64, &mut out);
            proof {
                reveal_strlit(":");
                assert(out@ =~= check_port_spec(host@, port as int));
            }
            out
        },
    }
}

/// `increase_port(host, offset)`: when `host` carries an explicit,
/// positive, parseable trailing port (bracket-aware for IPv6), that
/// port is replaced by `port + offset`; otherwise `host` is returned
/// unchanged.
pub open spec fn increase_port_spec(host: Seq<char>, offset: int) -> Seq<char> {
    if is_ipv6_spec(host) {
        if host.len() > 0 && host[0] == '[' {
            let j = first_index_of(host, ']');
            if 0 <= j && j + 1 < host.len() && host[j + 1] == ':' {
                let p = port_of(host.skip(j + 2));
                if p > 0 {
                    host.take(j + 2) + int_str(p + offset)
                } else {
                    host
                }
            } else {
                host
            }
        } else {
            host
        }
    } else {
        let j = first_index_of(host, ':');
        if 0 <= j && !has_char(host.skip(j + 1), ':') {
            let p = port_of(host.skip(j + 1));
            if p > 0 {
                host.take(j + 1) + int_str(p + offset)
            } else {
                host
            }
        } else {
            host
        }
    }
}

/// Shift the explicit trailing port of `host` by `offset`; a host
/// without a positive parseable port is returned unchanged.
pub fn increase_port(host: &str, offset: i32) -> (r: String)
    ensures
        r@ == increase_port_spec(host@, offset as int),
{
    let n = host.unicode_len();
    if is_ipv6_str(host) {
        if n > 0 && host.get_char(0) == '[' {
            if let Some(j) = find_char_from(host, 0, ']') {
                proof {
                    lemma_first_index_found(host@, ']', j as int);
                }
                if j + 1 < n {
                    if host.get_char(j + 1) == ':' {
                        let p = parse_port(host, j + 2);
                        if p > 0 {
                            let mut out = host.substring_char(0, j + 2).to_owned();
                            push_i64_dec(p as i64 + offset as i64, &mut out);
                            proof {
                                assert(out@ =~= increase_port_spec(host@, offset as int));
                            }
                            return out;
                        }
                    }
                }
            } else {
                proof {
                    lemma_first_index_none(host@, ']');
                }
            }
        }
        return host.to_owned();
    }
    match find_char_from(host, 0, ':') {
        Some(j) => {
            proof {
                lemma_first_index_found(host@, ':', j as int);
            }
            match find_char_from(host, j + 1, ':') {
                Some(j2) => {
                    proof {
                        assert(host@.skip(j as int + 1)[j2 - j - 1] == ':');
                        assert(has_char(host@.skip(j as int + 1), ':'));
                    }
                    host.to_owned()
                },
                None => {
                    proof {
                        assert forall|i: int|
                            0 <= i < host@.skip(j as int + 1).len() implies #[trigger] host@.skip(
                            j as int + 1,
                        )[i] != ':' by {
                            assert(host@.skip(j as int + 1)[i] == host@[j + 1 + i]);
                        }
                    }
                    let p = parse_port(host, j + 1);
                    if p > 0 {
                        let mut out = host.substring_char(0, j + 1).to_owned();
                        push_i64_dec(p as i64 + offset as i64, &mut out);
                        proof {
                            assert(out@ =~= increase_port_spec(host@, offset as int));
                        }
                        out
                    } else {
                        host.to_owned()
                    }
                },
            }
        },
        None => {
            proof {
                lemma_first_index_none(host@, ':');
            }
            host.to_owned()
        },
    }
}

/// `ipv4_to_ipv6(addr, ipv4)`: unless `ipv4` is forced, an IPv4
/// literal host gets the NAT64 synthesis suffix inserted right after
/// the literal, before any `:port`.
pub open spec fn ipv4_to_ipv6_spec(addr: Seq<char>, ipv4: bool) -> Seq<char> {
    if !ipv4 && is_ipv4_spec(addr) {
        let j = first_index_of(addr, ':');
        let e = if j < 0 {
            addr.len() as int
        } else {
            j
        };
        addr.take(e) + seq!['.', 'n', 'i', 'p', '.', 'i', 'o'] + addr.skip(e)
    } else {
        addr
    }
}

/// Rewrite an IPv4 `host[:port]` into the NAT64 synthesis name
/// `host.nip.io[:port]`, whose IPv6 records embed the IPv4 address;
/// anything else (or a forced-IPv4 configuration) is returned
/// unchanged.
pub fn ipv4_to_ipv6(addr: String, ipv4: bool) -> (r: String)
    ensures
        r@ == ipv4_to_ipv6_spec(addr@, ipv4),
{
    if ipv4 {
        return addr;
    }
    let s = addr.as_str();
    if !is_ipv4_str(s) {
        return addr;
    }
    let n = s.unicode_len();
    let e: usize = match find_char_from(s, 0, ':') {
        Some(j) => {
            proof {
                lemma_first_index_found(s@, ':', j as int);
            }
            j
        },
        None => {
            proof {
                lemma_first_index_none(s@, ':');
            }
            n
        },
    };
    let mut out = s.substring_char(0, e).to_owned();
    out.append(".nip.io");
    let tail = s.substring_char(e, n);
    out.append(tail);
    proof {
        reveal_strlit(".nip.io");
        assert(out@ =~= ipv4_to_ipv6_spec(addr@, ipv4));
    }
    out
}

} // verus!
