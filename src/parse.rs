use vstd::prelude::*;

verus! {

/// ASCII whitespace: space, tab, line feed, form feed and carriage return.
pub open spec fn is_space(c: char) -> bool {
    c == ' ' || c == '\t' || c == '\n' || c == '\x0C' || c == '\r'
}

/// A hexadecimal digit, in either case.
pub open spec fn is_hex_digit(c: char) -> bool {
    ('0' <= c && c <= '9') || ('a' <= c && c <= 'f') || ('A' <= c && c <= 'F')
}

/// The value of a hexadecimal digit.
pub open spec fn digit_value(c: char) -> nat {
    if '0' <= c && c <= '9' {
        (c as nat - 48) as nat
    } else if 'a' <= c && c <= 'f' {
        (c as nat - 87) as nat
    } else {
        (c as nat - 55) as nat
    }
}

/// The value of a run of hexadecimal digits, most significant first.
pub open spec fn digits_value(d: Seq<char>) -> nat
    decreases d.len(),
{
    if d.len() == 0 {
        0
    } else {
        digits_value(d.drop_last()) * 16 + digit_value(d.last())
    }
}

/// The digits of a token: an optional leading `+` is not part of them.
pub open spec fn token_digits(t: Seq<char>) -> Seq<char> {
    if t.len() > 0 && t[0] == '+' {
        t.drop_first()
    } else {
        t
    }
}

/// A token names a byte when it is an optional `+` followed by at least one
/// hexadecimal digit, and the number they spell is at most 255.
pub open spec fn is_byte_token(t: Seq<char>) -> bool {
    let d = token_digits(t);
    &&& d.len() > 0
    &&& forall|i: int| 0 <= i < d.len() ==> is_hex_digit(#[trigger] d[i])
    &&& digits_value(d) <= 255
}

/// The number a token spells.
pub open spec fn token_value(t: Seq<char>) -> nat {
    digits_value(token_digits(t))
}

/// The token being read, as a sequence of zero or one tokens.
pub open spec fn flush(cur: Seq<char>) -> Seq<Seq<char>> {
    if cur.len() == 0 {
        seq![]
    } else {
        seq![cur]
    }
}

/// The tokens of `s`, where `cur` holds the characters of a token already begun.
pub open spec fn split_from(s: Seq<char>, cur: Seq<char>) -> Seq<Seq<char>>
    decreases s.len(),
{
    if s.len() == 0 {
        flush(cur)
    } else if is_space(s[0]) {
        flush(cur) + split_from(s.drop_first(), seq![])
    } else {
        split_from(s.drop_first(), cur.push(s[0]))
    }
}

/// The maximal runs of non-whitespace characters of `s`, in order.
pub open spec fn tokens(s: Seq<char>) -> Seq<Seq<char>> {
    split_from(s, seq![])
}

/// Reads a list of tokens: the bytes they name, or the first one that names none.
pub open spec fn parse_tokens(ts: Seq<Seq<char>>) -> Result<Seq<u8>, Seq<char>>
    decreases ts.len(),
{
    if ts.len() == 0 {
        Ok(seq![])
    } else if !is_byte_token(ts[0]) {
        Err(ts[0])
    } else {
        match parse_tokens(ts.drop_first()) {
            Ok(r) => Ok(seq![token_value(ts[0]) as u8] + r),
            Err(e) => Err(e),
        }
    }
}

/// What reading `s` as whitespace-separated hexadecimal bytes gives.
pub open spec fn parse_spec(s: Seq<char>) -> Result<Seq<u8>, Seq<char>> {
    parse_tokens(tokens(s))
}

/// `p` put in front of the bytes of a successful result.
pub open spec fn prepend(p: Seq<u8>, r: Result<Seq<u8>, Seq<char>>) -> Result<Seq<u8>, Seq<char>> {
    match r {
        Ok(b) => Ok(p + b),
        Err(e) => Err(e),
    }
}

/// The characters of the token being read at position `i`, if one was begun at `start`.
pub open spec fn current(cs: Seq<char>, start: int, i: int, in_token: bool) -> Seq<char> {
    if in_token {
        cs.subrange(start, i)
    } else {
        seq![]
    }
}

proof fn lemma_parse_flush(cur: Seq<char>, rest: Seq<Seq<char>>)
    ensures
        parse_tokens(flush(cur) + rest) == (if cur.len() == 0 {
            parse_tokens(rest)
        } else if !is_byte_token(cur) {
            Err(cur)
        } else {
            prepend(seq![token_value(cur) as u8], parse_tokens(rest))
        }),
{
    if cur.len() == 0 {
        assert(flush(cur) + rest =~= rest);
    } else {
        let ts = flush(cur) + rest;
        assert(ts[0] == cur);
        assert(ts.drop_first() =~= rest);
    }
}

proof fn lemma_prepend_push(p: Seq<u8>, b: u8, r: Result<Seq<u8>, Seq<char>>)
    ensures
        prepend(p, prepend(seq![b], r)) == prepend(p.push(b), r),
{
    if let Ok(x) = r {
        assert(p + (seq![b] + x) =~= p.push(b) + x);
    }
}

proof fn lemma_parse_tokens_all_bytes(ts: Seq<Seq<char>>)
    requires
        forall|k: int| 0 <= k < ts.len() ==> is_byte_token(#[trigger] ts[k]),
    ensures
        parse_tokens(ts) == Ok::<Seq<u8>, Seq<char>>(ts.map_values(|t: Seq<char>| token_value(t) as u8)),
    decreases ts.len(),
{
    if ts.len() > 0 {
        let rest = ts.drop_first();
        assert forall|k: int| 0 <= k < rest.len() implies is_byte_token(#[trigger] rest[k]) by {
            assert(rest[k] == ts[k + 1]);
        }
        lemma_parse_tokens_all_bytes(rest);
        assert(ts.map_values(|t: Seq<char>| token_value(t) as u8) =~= seq![token_value(ts[0]) as u8]
            + rest.map_values(|t: Seq<char>| token_value(t) as u8));
    } else {
        assert(ts.map_values(|t: Seq<char>| token_value(t) as u8) =~= seq![]);
    }
}

proof fn lemma_parse_tokens_first_invalid(ts: Seq<Seq<char>>, k: int)
    requires
        0 <= k < ts.len(),
        !is_byte_token(ts[k]),
    ensures
        exists|j: int|
            0 <= j <= k && !is_byte_token(#[trigger] ts[j]) && (forall|i: int|
                0 <= i < j ==> is_byte_token(#[trigger] ts[i])) && parse_tokens(ts) == Err::<
                Seq<u8>,
                Seq<char>,
            >(ts[j]),
    decreases ts.len(),
{
    if !is_byte_token(ts[0]) {
        assert(parse_tokens(ts) == Err::<Seq<u8>, Seq<char>>(ts[0]));
    } else {
        let rest = ts.drop_first();
        assert(rest[k - 1] == ts[k]);
        lemma_parse_tokens_first_invalid(rest, k - 1);
        let j = choose|j: int|
            0 <= j <= k - 1 && !is_byte_token(#[trigger] rest[j]) && (forall|i: int|
                0 <= i < j ==> is_byte_token(#[trigger] rest[i])) && parse_tokens(rest) == Err::<
                Seq<u8>,
                Seq<char>,
            >(rest[j]);
        assert(rest[j] == ts[j + 1]);
        assert forall|i: int| 0 <= i < j + 1 implies is_byte_token(#[trigger] ts[i]) by {
            if i > 0 {
                assert(ts[i] == rest[i - 1]);
            }
        }
    }
}

proof fn lemma_split_blank(s: Seq<char>)
    requires
        forall|i: int| 0 <= i < s.len() ==> is_space(#[trigger] s[i]),
    ensures
        split_from(s, seq![]) == Seq::<Seq<char>>::empty(),
    decreases s.len(),
{
    if s.len() > 0 {
        let rest = s.drop_first();
        assert forall|i: int| 0 <= i < rest.len() implies is_space(#[trigger] rest[i]) by {
            assert(rest[i] == s[i + 1]);
        }
        assert(is_space(s[0]));
        lemma_split_blank(rest);
        assert(flush(seq![]) + split_from(rest, seq![]) =~= Seq::<Seq<char>>::empty());
    }
}

/// When every token of `s` names a byte, reading `s` succeeds with one byte
/// per token, each the value of its token, in the order of the tokens.
pub proof fn lemma_parse_all_bytes(s: Seq<char>)
    requires
        forall|k: int| 0 <= k < tokens(s).len() ==> is_byte_token(#[trigger] tokens(s)[k]),
    ensures
        parse_spec(s) matches Ok(b) && b.len() == tokens(s).len() && forall|k: int|
            0 <= k < b.len() ==> b[k] == token_value(#[trigger] tokens(s)[k]),
{
    lemma_parse_tokens_all_bytes(tokens(s));
}

/// When some token of `s` names no byte, reading `s` fails, reporting the
/// first such token; no bytes come out.
pub proof fn lemma_parse_fails_on_invalid(s: Seq<char>, k: int)
    requires
        0 <= k < tokens(s).len(),
        !is_byte_token(tokens(s)[k]),
    ensures
        exists|j: int|
            0 <= j <= k && !is_byte_token(#[trigger] tokens(s)[j]) && (forall|i: int|
                0 <= i < j ==> is_byte_token(#[trigger] tokens(s)[i])) && parse_spec(s) == Err::<
                Seq<u8>,
                Seq<char>,
            >(tokens(s)[j]),
{
    lemma_parse_tokens_first_invalid(tokens(s), k);
}

/// Input that is empty or holds only whitespace reads as no bytes.
pub proof fn lemma_parse_blank(s: Seq<char>)
    requires
        forall|i: int| 0 <= i < s.len() ==> is_space(#[trigger] s[i]),
    ensures
        parse_spec(s) == Ok::<Seq<u8>, Seq<char>>(seq![]),
{
    lemma_split_blank(s);
}

/// A token of the input that does not name a byte.
pub struct InvalidHexToken {
    pub token: String,
}

/// Collects the characters of `s` in order.
fn chars_of(s: &str) -> (r: Vec<char>)
    ensures
        r@ == s@,
{
    let mut r: Vec<char> = Vec::new();
    for c in it: s.chars()
        invariant
            r@ == it.seq().take(it.index() as int),
            it.seq() == s@,
    {
        r.push(c);
    }
    r
}

fn is_space_char(c: char) -> (r: bool)
    ensures
        r == is_space(c),
{
    c == ' ' || c == '\t' || c == '\n' || c == '\x0C' || c == '\r'
}

/// The value of `c` as a hexadecimal digit, if it is one.
pub fn hex_digit_value(c: char) -> (r: Option<u8>)
    ensures
        r == (if is_hex_digit(c) {
            Some(digit_value(c) as u8)
        } else {
            None
        }),
        r matches Some(v) ==> v < 16,
{
    if '0' <= c && c <= '9' {
        Some((c as u32 - 48) as u8)
    } else if 'a' <= c && c <= 'f' {
        Some((c as u32 - 87) as u8)
    } else if 'A' <= c && c <= 'F' {
        Some((c as u32 - 55) as u8)
    } else {
        None
    }
}

/// The byte named by the token `cs[start..end]`, if it names one.
fn token_byte(cs: &Vec<char>, start: usize, end: usize) -> (r: Option<u8>)
    requires
        start < end <= cs@.len(),
    ensures
        r == (if is_byte_token(cs@.subrange(start as int, end as int)) {
            Some(token_value(cs@.subrange(start as int, end as int)) as u8)
        } else {
            None
        }),
{
    let ghost t = cs@.subrange(start as int, end as int);
    let first: usize = if cs[start] == '+' {
        start + 1
    } else {
        start
    };
    let ghost d = token_digits(t);
    assert(d =~= cs@.subrange(first as int, end as int));
    if first == end {
        return None;
    }
    // `v` is the value of the digits read so far, held at 256 once it passes 255.
    let mut v: u32 = 0;
    let mut i: usize = first;
    while i < end
        invariant
            first <= i <= end <= cs@.len(),
            d =~= cs@.subrange(first as int, end as int),
            t == cs@.subrange(start as int, end as int),
            d == token_digits(t),
            forall|k: int| first <= k < i ==> is_hex_digit(#[trigger] cs@[k]),
            v == (if digits_value(cs@.subrange(first as int, i as int)) <= 255 {
                digits_value(cs@.subrange(first as int, i as int))
            } else {
                256
            }),
        decreases end - i,
    {
        let dv = hex_digit_value(cs[i]);
        match dv {
            None => {
                assert(d[i - first] == cs@[i as int]);
                assert(!is_hex_digit(d[i - first]));
                assert(!is_byte_token(t));
                return None;
            },
            Some(x) => {
                let ghost p = cs@.subrange(first as int, i as int);
                let ghost q = cs@.subrange(first as int, i + 1);
                assert(q.drop_last() =~= p);
                assert(digits_value(q) == digits_value(p) * 16 + x);
                v = if v > 255 {
                    256
                } else if v * 16 + (x as u32) > 255 {
                    256
                } else {
                    v * 16 + (x as u32)
                };
                i = i + 1;
            },
        }
    }
    assert(cs@.subrange(first as int, end as int) =~= d);
    assert forall|k: int| 0 <= k < d.len() implies is_hex_digit(#[trigger] d[k]) by {
        assert(d[k] == cs@[first + k]);
    }
    if v > 255 {
        None
    } else {
        Some(v as u8)
    }
}

/// Reads `input` as hexadecimal bytes separated by runs of ASCII whitespace.
///
/// Each token is an optional `+` and one or more hexadecimal digits of either
/// case whose value is at most 255. The bytes come in the order of the
/// tokens; the first token that names no byte fails the whole input, and no
/// bytes are returned then.
pub fn parse_hex(input: &str) -> (r: Result<Vec<u8>, InvalidHexToken>)
    ensures
        match r {
            Ok(v) => parse_spec(input@) == Ok::<Seq<u8>, Seq<char>>(v@),
            Err(e) => parse_spec(input@) == Err::<Seq<u8>, Seq<char>>(e.token@),
        },
{
    let cs = chars_of(input);
    let mut out: Vec<u8> = Vec::new();
    let mut start: usize = 0;
    let mut in_token = false;
    let mut i: usize = 0;
    proof {
        assert(cs@.skip(0) =~= cs@);
    }
    while i < cs.len()
        invariant
            cs@ == input@,
            i <= cs@.len(),
            in_token ==> start < i,
            parse_spec(input@) == prepend(
                out@,
                parse_tokens(split_from(cs@.skip(i as int), current(cs@, start as int, i as int, in_token))),
            ),
        decreases cs.len() - i,
    {
        let ghost rest = cs@.skip(i as int);
        let ghost cur = current(cs@, start as int, i as int, in_token);
        proof {
            assert(rest[0] == cs@[i as int]);
            assert(rest.drop_first() =~= cs@.skip(i + 1));
        }
        if is_space_char(cs[i]) {
            proof {
                lemma_parse_flush(cur, split_from(cs@.skip(i + 1), seq![]));
            }
            if in_token {
                match token_byte(&cs, start, i) {
                    None => {
                        let token = String::from_str(input.substring_char(start, i));
                        return Err(InvalidHexToken { token });
                    },
                    Some(b) => {
                        proof {
                            lemma_prepend_push(out@, b, parse_tokens(split_from(cs@.skip(i + 1), seq![])));
                        }
                        out.push(b);
                    },
                }
                in_token = false;
            }
        } else {
            if !in_token {
                in_token = true;
                start = i;
            }
            proof {
                assert(cs@.subrange(start as int, i + 1) =~= cur.push(cs@[i as int]));
            }
        }
        i = i + 1;
    }
    let ghost cur = current(cs@, start as int, i as int, in_token);
    proof {
        assert(cs@.skip(i as int) =~= Seq::<char>::empty());
        lemma_parse_flush(cur, seq![]);
        assert(flush(cur) + seq![] =~= flush(cur));
    }
    if in_token {
        match token_byte(&cs, start, i) {
            None => {
                let token = String::from_str(input.substring_char(start, i));
                return Err(InvalidHexToken { token });
            },
            Some(b) => {
                proof {
                    lemma_prepend_push(out@, b, parse_tokens(seq![]));
                }
                out.push(b);
            },
        }
    }
    proof {
        assert(out@ + seq![] =~= out@);
    }
    Ok(out)
}

} // verus!
