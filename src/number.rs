//! Parsing of unsigned machine words from text in a given radix.
use vstd::prelude::*;

verus! {

/// Value of the digit `c` in `radix` (letters of either case stand for 10
/// and up), if it is one.
pub open spec fn digit_value(c: char, radix: nat) -> Option<nat> {
    let d: int = if '0' <= c && c <= '9' {
        c as int - '0' as int
    } else if 'a' <= c && c <= 'z' {
        c as int - 'a' as int + 10
    } else if 'A' <= c && c <= 'Z' {
        c as int - 'A' as int + 10
    } else {
        36
    };
    if d < radix {
        Some(d as nat)
    } else {
        None
    }
}

/// Value of the digit string `s`, most significant first, if every
/// character is a digit.
pub open spec fn digits_value(s: Seq<char>, radix: nat) -> Option<nat>
    decreases s.len(),
{
    if s.len() == 0 {
        Some(0)
    } else {
        match (digits_value(s.drop_last(), radix), digit_value(s.last(), radix)) {
            (Some(v), Some(d)) => Some(v * radix + d),
            _ => None,
        }
    }
}

/// The word that `s` denotes in `radix`: an optional `+`, then at least one
/// digit, and a value that fits in `usize`.
pub open spec fn parse_unsigned(s: Seq<char>, radix: nat) -> Option<nat> {
    let body = if s.len() > 0 && s[0] == '+' {
        s.skip(1)
    } else {
        s
    };
    if body.len() == 0 {
        None
    } else {
        match digits_value(body, radix) {
            Some(v) => if v <= usize::MAX {
                Some(v)
            } else {
                None
            },
            None => None,
        }
    }
}

/// `s` without a leading `0x` or `0X`.
pub open spec fn strip_hex_prefix(s: Seq<char>) -> Seq<char> {
    if s.len() >= 2 && s[0] == '0' && (s[1] == 'x' || s[1] == 'X') {
        s.skip(2)
    } else {
        s
    }
}

/// A prefix of a digit string is a digit string of no greater value.
pub proof fn lemma_prefix_value(s: Seq<char>, j: int, radix: nat)
    requires
        0 <= j <= s.len(),
        radix >= 1,
        digits_value(s, radix) is Some,
    ensures
        digits_value(s.take(j), radix) is Some,
        digits_value(s.take(j), radix)->Some_0 <= digits_value(s, radix)->Some_0,
    decreases s.len(),
{
    if j == s.len() {
        assert(s.take(j) =~= s);
    } else {
        let t = s.drop_last();
        lemma_prefix_value(t, j, radix);
        assert(t.take(j) =~= s.take(j));
        let v = digits_value(t, radix)->Some_0;
        assert(v * radix >= v) by (nonlinear_arith)
            requires radix >= 1;
    }
}

fn digit_of(c: char, radix: u32) -> (r: Option<u32>)
    requires
        2 <= radix <= 36,
    ensures
        r is Some <==> digit_value(c, radix as nat) is Some,
        r is Some ==> r->Some_0 as nat == digit_value(c, radix as nat)->Some_0,
{
    let d: u32 = if '0' <= c && c <= '9' {
        (c as u32) - ('0' as u32)
    } else if 'a' <= c && c <= 'z' {
        (c as u32) - ('a' as u32) + 10
    } else if 'A' <= c && c <= 'Z' {
        (c as u32) - ('A' as u32) + 10
    } else {
        36
    };
    if d < radix {
        Some(d)
    } else {
        None
    }
}

/// Parses the characters of `s` from index `start` on as an unsigned word in
/// `radix`.
pub fn parse_unsigned_from(s: &str, start: usize, radix: u32) -> (r: Option<usize>)
    requires
        start <= s@.len(),
        2 <= radix <= 36,
    ensures
        r is Some ==> parse_unsigned(s@.skip(start as int), radix as nat) == Some(r->Some_0 as nat),
        r is None ==> parse_unsigned(s@.skip(start as int), radix as nat) is None,
{
    let ghost full = s@.skip(start as int);
    let n = s.unicode_len();
    let mut begin = start;
    if start < n && s.get_char(start) == '+' {
        begin = start + 1;
    }
    let ghost body = s@.subrange(begin as int, n as int);
    assert(body =~= (if full.len() > 0 && full[0] == '+' { full.skip(1) } else { full }));
    if begin == n {
        return None;
    }
    let mut v: usize = 0;
    let mut i: usize = begin;
    while i < n
        invariant
            n == s@.len(),
            begin <= i <= n,
            2 <= radix <= 36,
            body == s@.subrange(begin as int, n as int),
            digits_value(body.take(i - begin), radix as nat) == Some(v as nat),
            full == s@.skip(start as int),
            parse_unsigned(full, radix as nat) == match digits_value(body, radix as nat) {
                Some(x) => if x <= usize::MAX {
                    Some(x)
                } else {
                    None
                },
                None => None,
            },
        decreases n - i,
    {
        let c = s.get_char(i);
        let ghost pre = body.take(i - begin);
        let ghost next = body.take(i - begin + 1);
        assert(next.drop_last() =~= pre);
        assert(next.last() == c);
        let d = match digit_of(c, radix) {
            Some(d) => d,
            None => {
                proof {
                    if digits_value(body, radix as nat) is Some {
                        lemma_prefix_value(body, i - begin + 1, radix as nat);
                    }
                }
                return None;
            },
        };
        let m = match v.checked_mul(radix as usize) {
            Some(m) => m,
            None => {
                proof {
                    if digits_value(body, radix as nat) is Some {
                        lemma_prefix_value(body, i - begin + 1, radix as nat);
                        assert(v * radix + d >= v * radix) by (nonlinear_arith)
                            requires d >= 0;
                    }
                }
                return None;
            },
        };
        let nv = match m.checked_add(d as usize) {
            Some(x) => x,
            None => {
                proof {
                    if digits_value(body, radix as nat) is Some {
                        lemma_prefix_value(body, i - begin + 1, radix as nat);
                    }
                }
                return None;
            },
        };
        v = nv;
        i += 1;
    }
    assert(body.take(n - begin) =~= body);
    Some(v)
}

/// Parses a hexadecimal address, with or without a `0x` or `0X` prefix.
pub fn parse_address(addr: &str) -> (r: Option<usize>)
    ensures
        r is Some ==> parse_unsigned(strip_hex_prefix(addr@), 16) == Some(r->Some_0 as nat),
        r is None ==> parse_unsigned(strip_hex_prefix(addr@), 16) is None,
{
    let n = addr.unicode_len();
    if n >= 2 && addr.get_char(0) == '0' && (addr.get_char(1) == 'x' || addr.get_char(1) == 'X') {
        parse_unsigned_from(addr, 2, 16)
    } else {
        assert(addr@.skip(0) =~= addr@);
        parse_unsigned_from(addr, 0, 16)
    }
}

} // verus!
