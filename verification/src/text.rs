//! Character-level helpers shared by the notation code: turning a `&str`
//! into its characters, appending to a `String`, decimal printing and parsing.
use vstd::prelude::*;

verus! {

/// Appends `c` to `s` through `String::push`.
/// Trusted: std documents `push` as appending the character to the end of
/// the string; that is all this contract claims.
#[verifier::external_body]
pub(crate) fn push_char(s: &mut String, c: char)
    ensures
        final(s)@ == old(s)@.push(c),
{
    s.push(c);
}

/// The characters of `s`, in order.
pub fn chars_of(s: &str) -> (v: Vec<char>)
    ensures
        v@ == s@,
{
    let mut v: Vec<char> = Vec::new();
    for c in it: s.chars()
        invariant
            v@ == it.seq().take(it.index() as int),
    {
        v.push(c);
    }
    v
}


/// Unicode White_Space, the set `char::is_whitespace` and `str::split_whitespace` use.
pub open spec fn is_ws(c: char) -> bool {
    let x = c as u32;
    ||| 0x09 <= x <= 0x0D
    ||| x == 0x20
    ||| x == 0x85
    ||| x == 0xA0
    ||| x == 0x1680
    ||| 0x2000 <= x <= 0x200A
    ||| x == 0x2028
    ||| x == 0x2029
    ||| x == 0x202F
    ||| x == 0x205F
    ||| x == 0x3000
}

pub fn is_whitespace(c: char) -> (r: bool)
    ensures
        r == is_ws(c),
{
    let x = c as u32;
    (0x09 <= x && x <= 0x0D) || x == 0x20 || x == 0x85 || x == 0xA0 || x == 0x1680 || (0x2000 <= x && x
        <= 0x200A) || x == 0x2028 || x == 0x2029 || x == 0x202F || x == 0x205F || x == 0x3000
}

/// The maximal runs of non-whitespace characters of `s`, in order.
pub open spec fn tokens(s: Seq<char>) -> Seq<Seq<char>>
    decreases s.len(),
{
    if s.len() == 0 {
        Seq::empty()
    } else {
        let c = s.last();
        let rest = s.drop_last();
        let t = tokens(rest);
        if is_ws(c) {
            t
        } else if rest.len() > 0 && !is_ws(rest.last()) {
            t.update(t.len() - 1, t.last().push(c))
        } else {
            t.push(seq![c])
        }
    }
}

pub proof fn lemma_tokens_shape(s: Seq<char>)
    ensures
        (s.len() > 0 && !is_ws(s.last())) ==> tokens(s).len() > 0,
    decreases s.len(),
{
    if s.len() > 0 {
        lemma_tokens_shape(s.drop_last());
    }
}

/// Split a character sequence at whitespace, dropping empty pieces.
pub fn split_ws(s: &[char]) -> (parts: Vec<Vec<char>>)
    ensures
        parts@.len() == tokens(s@).len(),
        forall|i: int| 0 <= i < parts@.len() ==> #[trigger] parts@[i]@ == tokens(s@)[i],
{
    let mut parts: Vec<Vec<char>> = Vec::new();
    let mut cur: Vec<char> = Vec::new();
    let mut i: usize = 0;
    while i < s.len()
        invariant
            i <= s@.len(),
            ({
                let t = tokens(s@.take(i as int));
                &&& (cur@.len() > 0 <==> (i > 0 && !is_ws(s@[i - 1])))
                &&& if cur@.len() > 0 {
                    &&& parts@.len() + 1 == t.len()
                    &&& cur@ == t.last()
                    &&& forall|j: int| 0 <= j < parts@.len() ==> #[trigger] parts@[j]@ == t[j]
                } else {
                    &&& parts@.len() == t.len()
                    &&& forall|j: int| 0 <= j < parts@.len() ==> #[trigger] parts@[j]@ == t[j]
                }
            }),
        decreases s@.len() - i,
    {
        let c = s[i];
        proof {
            let p = s@.take(i + 1);
            assert(p.drop_last() =~= s@.take(i as int));
            assert(p.last() == c);
            lemma_tokens_shape(s@.take(i as int));
        }
        if is_whitespace(c) {
            if cur.len() > 0 {
                let done = cur;
                parts.push(done);
                cur = Vec::new();
            }
        } else {
            cur.push(c);
        }
        i = i + 1;
    }
    if cur.len() > 0 {
        parts.push(cur);
    }
    proof {
        assert(s@.take(s@.len() as int) =~= s@);
    }
    parts
}

/// The value of a run of decimal digits.
pub open spec fn digits_value(s: Seq<char>) -> nat
    decreases s.len(),
{
    if s.len() == 0 {
        0
    } else {
        digits_value(s.drop_last()) * 10 + ((s.last() as int - 48) as nat)
    }
}

pub open spec fn all_digits(s: Seq<char>) -> bool {
    forall|i: int| 0 <= i < s.len() ==> '0' <= #[trigger] s[i] <= '9'
}

/// How `u16::from_str` reads a token: an optional '+', then one or more
/// decimal digits whose value fits in 16 bits.
pub open spec fn parse_u16_spec(t: Seq<char>) -> Option<u16> {
    let d = if t.len() > 0 && t[0] == '+' { t.drop_first() } else { t };
    if d.len() > 0 && all_digits(d) && digits_value(d) <= 65535 {
        Some(digits_value(d) as u16)
    } else {
        None
    }
}

pub fn parse_u16(t: &[char]) -> (r: Option<u16>)
    ensures
        r == parse_u16_spec(t@),
{
    let mut start: usize = 0;
    if t.len() > 0 && t[0] == '+' {
        start = 1;
    }
    let ghost d = if t@.len() > 0 && t@[0] == '+' { t@.drop_first() } else { t@ };
    if start >= t.len() {
        return None;
    }
    let mut v: u32 = 0;
    let mut i: usize = start;
    while i < t.len()
        invariant
            start <= i <= t@.len(),
            d == t@.subrange(start as int, t@.len() as int),
            d == (if t@.len() > 0 && t@[0] == '+' { t@.drop_first() } else { t@ }),
            all_digits(t@.subrange(start as int, i as int)),
            v == digits_value(t@.subrange(start as int, i as int)),
            v <= 65535,
        decreases t@.len() - i,
    {
        let c = t[i];
        let ghost pre = t@.subrange(start as int, i as int);
        let ghost nxt = t@.subrange(start as int, i + 1);
        proof {
            assert(nxt.drop_last() =~= pre);
            assert(nxt.last() == c);
        }
        if !('0' <= c && c <= '9') {
            proof {
                assert(d[i - start] == c);
                assert(!all_digits(d));
            }
            return None;
        }
        let nv = v * 10 + (c as u32 - 48);
        if nv > 65535 {
            proof {
                lemma_digits_grow(d, (i + 1 - start) as int);
                assert(d.subrange(0, i + 1 - start) =~= nxt);
                assert(digits_value(nxt) == digits_value(pre) * 10 + (c as int - 48));
                assert(digits_value(nxt) == nv);
                assert(all_digits(d) ==> digits_value(d) >= nv);
                assert(parse_u16_spec(t@) is None);
            }
            return None;
        }
        v = nv;
        i = i + 1;
    }
    proof {
        assert(t@.subrange(start as int, i as int) =~= d);
    }
    Some(v as u16)
}

/// How `u64::from_str` (and `usize::from_str` with the bound `max`) reads a
/// token: an optional '+', then one or more decimal digits whose value is
/// at most `max`.
pub open spec fn parse_uint_spec(t: Seq<char>, max: nat) -> Option<nat> {
    let d = if t.len() > 0 && t[0] == '+' { t.drop_first() } else { t };
    if d.len() > 0 && all_digits(d) && digits_value(d) <= max {
        Some(digits_value(d))
    } else {
        None
    }
}

/// Read a decimal number of at most `max` (itself at most `u64::MAX`), as
/// `str::parse` reads one.
pub fn parse_uint(t: &[char], max: u64) -> (r: Option<u64>)
    ensures
        match parse_uint_spec(t@, max as nat) {
            Some(n) => r == Some(n as u64),
            None => r is None,
        },
{
    let mut start: usize = 0;
    if t.len() > 0 && t[0] == '+' {
        start = 1;
    }
    let ghost d = if t@.len() > 0 && t@[0] == '+' { t@.drop_first() } else { t@ };
    if start >= t.len() {
        return None;
    }
    let mut v: u64 = 0;
    let mut i: usize = start;
    while i < t.len()
        invariant
            start <= i <= t@.len(),
            d == t@.subrange(start as int, t@.len() as int),
            d == (if t@.len() > 0 && t@[0] == '+' { t@.drop_first() } else { t@ }),
            all_digits(t@.subrange(start as int, i as int)),
            v == digits_value(t@.subrange(start as int, i as int)),
            v <= max,
        decreases t@.len() - i,
    {
        let c = t[i];
        let ghost pre = t@.subrange(start as int, i as int);
        let ghost nxt = t@.subrange(start as int, i + 1);
        proof {
            assert(nxt.drop_last() =~= pre);
            assert(nxt.last() == c);
        }
        if !('0' <= c && c <= '9') {
            proof {
                assert(d[i - start] == c);
                assert(!all_digits(d));
            }
            return None;
        }
        let nv: u128 = (v as u128) * 10 + (c as u32 - 48) as u128;
        if nv > max as u128 {
            proof {
                lemma_digits_grow(d, (i + 1 - start) as int);
                assert(d.subrange(0, i + 1 - start) =~= nxt);
                assert(digits_value(nxt) == digits_value(pre) * 10 + (c as int - 48));
                assert(digits_value(nxt) == nv);
                assert(all_digits(d) ==> digits_value(d) >= nv);
            }
            return None;
        }
        v = nv as u64;
        i = i + 1;
    }
    proof {
        assert(t@.subrange(start as int, i as int) =~= d);
    }
    Some(v)
}

proof fn lemma_digits_grow(d: Seq<char>, k: int)
    requires
        0 <= k <= d.len(),
    ensures
        all_digits(d) ==> digits_value(d) >= digits_value(d.subrange(0, k)),
    decreases d.len() - k,
{
    if k < d.len() {
        lemma_digits_grow(d, k + 1);
        let a = d.subrange(0, k + 1);
        assert(a.drop_last() =~= d.subrange(0, k));
        if all_digits(d) {
            assert('0' <= d[k] <= '9');
        }
    } else {
        assert(d.subrange(0, k) =~= d);
    }
}

/// The decimal digits of `n`, most significant first.
pub open spec fn decimal(n: nat) -> Seq<char>
    decreases n,
{
    if n < 10 {
        seq![(48 + n) as char]
    } else {
        decimal(n / 10).push((48 + n % 10) as char)
    }
}

/// Append the characters of `t` to `s`.
pub fn push_text(s: &mut String, t: &str)
    ensures
        final(s)@ == old(s)@ + t@,
{
    let cs = chars_of(t);
    let mut i: usize = 0;
    while i < cs.len()
        invariant
            i <= cs@.len(),
            cs@ == t@,
            s@ == old(s)@ + t@.take(i as int),
        decreases cs@.len() - i,
    {
        push_char(s, cs[i]);
        proof {
            assert(t@.take(i + 1) =~= t@.take(i as int).push(cs@[i as int]));
        }
        i = i + 1;
    }
    proof {
        assert(t@.take(t@.len() as int) =~= t@);
    }
}

/// A signed integer in decimal, with a leading '-' when negative.
pub open spec fn signed_text(x: int) -> Seq<char> {
    if x < 0 {
        seq!['-'] + decimal((-x) as nat)
    } else {
        decimal(x as nat)
    }
}

/// Append `x` in decimal, with a leading '-' when negative.
pub fn push_signed(s: &mut String, x: i64)
    requires
        x > i64::MIN,
    ensures
        final(s)@ == old(s)@ + signed_text(x as int),
{
    if x < 0 {
        push_char(s, '-');
        push_decimal(s, (-x) as u64);
        proof {
            assert(old(s)@.push('-') + decimal((-x) as nat) =~= old(s)@ + (seq!['-'] + decimal((-x) as nat)));
        }
    } else {
        push_decimal(s, x as u64);
    }
}

/// Append the decimal digits of `n` to `s`.
pub fn push_decimal(s: &mut String, n: u64)
    ensures
        final(s)@ == old(s)@ + decimal(n as nat),
    decreases n,
{
    if n >= 10 {
        push_decimal(s, n / 10);
    }
    let d = ((n % 10) as u8 + 48) as char;
    push_char(s, d);
    proof {
        if n < 10 {
            assert(decimal(n as nat) =~= seq![d]);
        }
    }
}

/// No character of `w` is whitespace.
pub open spec fn ws_free(w: Seq<char>) -> bool {
    forall|i: int| 0 <= i < w.len() ==> !is_ws(#[trigger] w[i])
}

/// A single word is its own only token.
pub proof fn lemma_tokens_word(w: Seq<char>)
    requires
        w.len() > 0,
        ws_free(w),
    ensures
        tokens(w) == seq![w],
    decreases w.len(),
{
    let rest = w.drop_last();
    if rest.len() == 0 {
        assert(w =~= seq![w.last()]);
        assert(tokens(rest) =~= Seq::<Seq<char>>::empty());
        assert(tokens(w) == tokens(rest).push(seq![w.last()]));
        assert(tokens(w) =~= seq![w]);
    } else {
        assert(ws_free(rest)) by {
            assert forall|i: int| 0 <= i < rest.len() implies !is_ws(#[trigger] rest[i]) by {
                assert(rest[i] == w[i]);
            }
        }
        lemma_tokens_word(rest);
        assert(!is_ws(w[w.len() - 1]));
        assert(!is_ws(rest[rest.len() - 1]));
        assert(rest.push(w.last()) =~= w);
        let t = tokens(rest);
        assert(tokens(w) == t.update(t.len() - 1, t.last().push(w.last())));
        assert(tokens(w) =~= seq![w]);
    }
}

/// A space and then a word add that word as one more token.
pub proof fn lemma_tokens_append(a: Seq<char>, w: Seq<char>)
    requires
        w.len() > 0,
        ws_free(w),
    ensures
        tokens(a + seq![' '] + w) == tokens(a).push(w),
    decreases w.len(),
{
    let s = a + seq![' '] + w;
    let rest = s.drop_last();
    assert(!is_ws(w[w.len() - 1]));
    if w.len() == 1 {
        assert(rest =~= a.push(' '));
        assert(is_ws(' '));
        assert(tokens(a.push(' ')) == tokens(a)) by {
            assert(a.push(' ').drop_last() =~= a);
        }
        assert(w =~= seq![w.last()]);
    } else {
        let w2 = w.drop_last();
        assert(ws_free(w2)) by {
            assert forall|i: int| 0 <= i < w2.len() implies !is_ws(#[trigger] w2[i]) by {
                assert(w2[i] == w[i]);
            }
        }
        lemma_tokens_append(a, w2);
        assert(rest =~= a + seq![' '] + w2);
        assert(rest.last() == w2.last());
        assert(!is_ws(w[w2.len() - 1]));
        assert(w2.push(w.last()) =~= w);
    }
}

/// The decimal digits of `n` read back as `n`.
pub proof fn lemma_decimal_digits(n: nat)
    ensures
        all_digits(decimal(n)),
        digits_value(decimal(n)) == n,
        1 <= decimal(n).len() <= n + 1,
        ws_free(decimal(n)),
        '0' <= decimal(n)[0] <= '9',
    decreases n,
{
    let d = decimal(n);
    if n < 10 {
        assert(d.drop_last().len() == 0);
        assert(((48 + n) as char) as int == 48 + n);
        assert(digits_value(d) == digits_value(d.drop_last()) * 10 + ((d.last() as int - 48) as nat));
    } else {
        lemma_decimal_digits(n / 10);
        let e = decimal(n / 10);
        assert(d.drop_last() =~= e);
        assert(n == (n / 10) * 10 + n % 10);
        assert forall|i: int| 0 <= i < d.len() implies '0' <= #[trigger] d[i] <= '9' by {
            if i < e.len() {
                assert(d[i] == e[i]);
            }
        }
        assert(d[0] == e[0]);
        assert(((48 + n % 10) as char) as int == 48 + n % 10);
        assert(digits_value(d) == digits_value(e) * 10 + ((d.last() as int - 48) as nat));
    }
    assert forall|i: int| 0 <= i < d.len() implies !is_ws(#[trigger] d[i]) by {
        assert('0' <= d[i] <= '9');
    }
}

/// A number written in decimal parses back to itself.
pub proof fn lemma_parse_decimal(n: u16)
    ensures
        parse_u16_spec(decimal(n as nat)) == Some(n),
{
    lemma_decimal_digits(n as nat);
}

} // verus!
