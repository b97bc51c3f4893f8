//! Decimal numbers and whitespace-separated words, on strings seen as sequences of chars.

use vstd::prelude::*;
use vstd::utf8::encode_utf8;

verus! {

/// The ASCII digit for `d` (0 to 9).
pub open spec fn digit_char(d: nat) -> char {
    (d + 48) as char
}

/// The decimal digits of `n`, most significant first, without leading zeros
/// (zero itself is "0").
pub open spec fn nat_digits(n: nat) -> Seq<char>
    decreases n,
{
    if n < 10 {
        seq![digit_char(n)]
    } else {
        nat_digits(n / 10) + seq![digit_char(n % 10)]
    }
}

/// The decimal text of an integer, with a leading '-' when it is negative.
pub open spec fn int_decimal(x: int) -> Seq<char> {
    if x < 0 {
        seq!['-'] + nat_digits((-x) as nat)
    } else {
        nat_digits(x as nat)
    }
}

proof fn lemma_digit_char_injective(a: nat, b: nat)
    requires
        a < 10,
        b < 10,
        digit_char(a) == digit_char(b),
    ensures
        a == b,
{
}

proof fn lemma_nat_digits_nonempty(n: nat)
    ensures
        nat_digits(n).len() >= 1,
        n >= 10 ==> nat_digits(n).len() >= 2,
    decreases n,
{
    if n >= 10 {
        lemma_nat_digits_nonempty(n / 10);
    }
}

/// Different numbers have different decimal texts.
pub proof fn lemma_nat_digits_injective(a: nat, b: nat)
    requires
        nat_digits(a) == nat_digits(b),
    ensures
        a == b,
    decreases a,
{
    lemma_nat_digits_nonempty(a);
    lemma_nat_digits_nonempty(b);
    if a < 10 && b < 10 {
        assert(nat_digits(a)[0] == digit_char(a));
        assert(nat_digits(b)[0] == digit_char(b));
        lemma_digit_char_injective(a, b);
    } else if a >= 10 && b >= 10 {
        let da = nat_digits(a);
        let db = nat_digits(b);
        assert(da.drop_last() =~= nat_digits(a / 10));
        assert(db.drop_last() =~= nat_digits(b / 10));
        assert(da.last() == digit_char(a % 10));
        assert(db.last() == digit_char(b % 10));
        lemma_digit_char_injective(a % 10, b % 10);
        lemma_nat_digits_injective(a / 10, b / 10);
    } else {
        lemma_nat_digits_nonempty(a / 10);
        lemma_nat_digits_nonempty(b / 10);
    }
}

/// The one-char text of a digit.
fn digit_str(d: u64) -> (s: &'static str)
    requires
        d < 10,
    ensures
        s@ == seq![digit_char(d as nat)],
{
    let table = "0123456789";
    proof {
        reveal_strlit("0123456789");
    }
    let s = table.substring_char(d as usize, (d + 1) as usize);
    assert(table@[d as int] == digit_char(d as nat)) by {
        if d == 0 {
        } else if d == 1 {
        } else if d == 2 {
        } else if d == 3 {
        } else if d == 4 {
        } else if d == 5 {
        } else if d == 6 {
        } else if d == 7 {
        } else if d == 8 {
        } else {
        }
    }
    assert(s@ =~= seq![digit_char(d as nat)]);
    s
}

/// Appends the decimal digits of `n` to `s`.
fn append_digits(s: &mut String, n: u128)
    ensures
        final(s)@ == old(s)@ + nat_digits(n as nat),
    decreases n,
{
    if n >= 10 {
        append_digits(s, n / 10);
    }
    let d = digit_str((n % 10) as u64);
    s.append(d);
    assert(final(s)@ =~= old(s)@ + nat_digits(n as nat));
}

/// The decimal text of `n`.
pub fn u128_to_decimal(n: u128) -> (s: String)
    ensures
        s@ == nat_digits(n as nat),
{
    let mut s = String::new();
    append_digits(&mut s, n);
    assert(s@ =~= nat_digits(n as nat));
    s
}

/// The decimal text of `x`, as `i32`'s `to_string` writes it.
pub fn i32_to_decimal(x: i32) -> (s: String)
    ensures
        s@ == int_decimal(x as int),
{
    if x < 0 {
        let mut s = String::from_str("-");
        proof {
            reveal_strlit("-");
        }
        let magnitude: i64 = -(x as i64);
        append_digits(&mut s, magnitude as u128);
        s
    } else {
        u128_to_decimal(x as u128)
    }
}

/// Whether `a` and `b` hold the same chars.
pub fn str_eq(a: &str, b: &str) -> (r: bool)
    ensures
        r == (a@ == b@),
{
    let n = a.unicode_len();
    if n != b.unicode_len() {
        return false;
    }
    let mut i: usize = 0;
    while i < n
        invariant
            i <= n,
            n == a@.len(),
            n == b@.len(),
            forall|j: int| 0 <= j < i ==> a@[j] == b@[j],
        decreases n - i,
    {
        if a.get_char(i) != b.get_char(i) {
            return false;
        }
        i = i + 1;
    }
    assert(a@ =~= b@);
    true
}

/// Whether `c` is white space in Unicode's sense (its `White_Space` property), as
/// `char::is_whitespace` decides.
pub open spec fn is_whitespace(c: char) -> bool {
    let u = c as u32;
    ||| 0x09 <= u <= 0x0D
    ||| u == 0x20
    ||| u == 0x85
    ||| u == 0xA0
    ||| u == 0x1680
    ||| 0x2000 <= u <= 0x200A
    ||| u == 0x2028
    ||| u == 0x2029
    ||| u == 0x202F
    ||| u == 0x205F
    ||| u == 0x3000
}

/// Whether `c` is white space.
pub fn char_is_whitespace(c: char) -> (b: bool)
    ensures
        b == is_whitespace(c),
{
    let u = c as u32;
    (0x09 <= u && u <= 0x0D) || u == 0x20 || u == 0x85 || u == 0xA0 || u == 0x1680 || (0x2000 <= u
        && u <= 0x200A) || u == 0x2028 || u == 0x2029 || u == 0x202F || u == 0x205F || u == 0x3000
}

/// The words of `s`: its longest runs of chars that are not white space, in order.
pub open spec fn words(s: Seq<char>) -> Seq<Seq<char>>
    decreases s.len(),
{
    if s.len() == 0 {
        seq![]
    } else {
        let init = words(s.drop_last());
        let c = s.last();
        if is_whitespace(c) {
            init
        } else if s.len() >= 2 && !is_whitespace(s[s.len() - 2]) {
            init.drop_last().push(init.last().push(c))
        } else {
            init.push(seq![c])
        }
    }
}

/// `t` is a stretch of consecutive chars of `s`.
pub open spec fn is_piece_of(t: Seq<char>, s: Seq<char>) -> bool {
    exists|a: int, b: int| 0 <= a <= b <= s.len() && t == s.subrange(a, b)
}

/// The words `ws` written out with one space between each two.
pub open spec fn join_words(ws: Seq<Seq<char>>) -> Seq<char>
    decreases ws.len(),
{
    if ws.len() == 0 {
        seq![]
    } else if ws.len() == 1 {
        ws[0]
    } else {
        join_words(ws.drop_last()) + seq![' '] + ws.last()
    }
}

/// `w` could be a word: it is not empty and holds no white space.
pub open spec fn is_word(w: Seq<char>) -> bool {
    &&& w.len() > 0
    &&& forall|i: int| 0 <= i < w.len() ==> !is_whitespace(#[trigger] w[i])
}

/// Every word of a text is a word: none is empty or holds white space; and a text that
/// ends in a char that is not white space has at least one word.
pub proof fn lemma_words_are_words(s: Seq<char>)
    ensures
        forall|k: int| 0 <= k < words(s).len() ==> is_word(#[trigger] words(s)[k]),
        s.len() > 0 && !is_whitespace(s.last()) ==> words(s).len() > 0,
    decreases s.len(),
{
    if s.len() > 0 {
        let t = s.drop_last();
        lemma_words_are_words(t);
        let init = words(t);
        let c = s.last();
        if !is_whitespace(c) && s.len() >= 2 && !is_whitespace(s[s.len() - 2]) {
            assert(t.last() == s[s.len() - 2]);
            let w = init.last().push(c);
            assert(is_word(init[init.len() - 1]));
            assert forall|i: int| 0 <= i < w.len() implies !is_whitespace(#[trigger] w[i]) by {
                if i < w.len() - 1 {
                    assert(w[i] == init[init.len() - 1][i]);
                }
            }
            assert forall|k: int| 0 <= k < words(s).len() implies is_word(#[trigger] words(s)[k]) by {
                if k < words(s).len() - 1 {
                    assert(words(s)[k] == init[k]);
                }
            }
        } else if !is_whitespace(c) {
            assert forall|k: int| 0 <= k < words(s).len() implies is_word(#[trigger] words(s)[k]) by {
                if k < words(s).len() - 1 {
                    assert(words(s)[k] == init[k]);
                } else {
                    assert(words(s)[k] =~= seq![c]);
                }
            }
        }
    }
}

/// Every word of a text is a stretch of it; when the text ends in a char that is not
/// white space, its last word ends the text.
pub proof fn lemma_words_lie_within(s: Seq<char>)
    ensures
        forall|k: int| 0 <= k < words(s).len() ==> is_piece_of(#[trigger] words(s)[k], s),
        s.len() > 0 && !is_whitespace(s.last()) ==> words(s).len() > 0 && words(s).last().len()
            <= s.len() && s.skip(s.len() - words(s).last().len()) == words(s).last(),
    decreases s.len(),
{
    lemma_words_are_words(s);
    if s.len() > 0 {
        let t = s.drop_last();
        lemma_words_lie_within(t);
        lemma_words_are_words(t);
        let init = words(t);
        let c = s.last();
        assert forall|k: int| 0 <= k < init.len() implies is_piece_of(#[trigger] init[k], s) by {
            let (a, b) = choose|a: int, b: int| 0 <= a <= b <= t.len() && init[k] == t.subrange(a, b);
            assert(t.subrange(a, b) =~= s.subrange(a, b));
        }
        if !is_whitespace(c) && s.len() >= 2 && !is_whitespace(s[s.len() - 2]) {
            assert(t.last() == s[s.len() - 2]);
            let lw = init.last();
            let w = lw.push(c);
            assert(t.skip(t.len() - lw.len()) == lw);
            assert(s.skip(s.len() - w.len()) =~= t.skip(t.len() - lw.len()).push(c));
            assert(w == s.subrange(s.len() - w.len(), s.len() as int));
            assert forall|k: int| 0 <= k < words(s).len() implies is_piece_of(#[trigger] words(s)[k], s) by {
                if k < words(s).len() - 1 {
                    assert(words(s)[k] == init[k]);
                } else {
                    assert(words(s)[k] == w);
                }
            }
        } else if !is_whitespace(c) {
            let w = seq![c];
            assert(s.skip(s.len() - 1) =~= w);
            assert(w =~= s.subrange(s.len() - 1, s.len() as int));
            assert forall|k: int| 0 <= k < words(s).len() implies is_piece_of(#[trigger] words(s)[k], s) by {
                if k < words(s).len() - 1 {
                    assert(words(s)[k] == init[k]);
                } else {
                    assert(words(s)[k] == w);
                }
            }
        } else {
            assert forall|k: int| 0 <= k < words(s).len() implies is_piece_of(#[trigger] words(s)[k], s) by {
                assert(words(s)[k] == init[k]);
            }
        }
    }
}

/// A word written after nothing, or after white space, adds itself as the last word.
proof fn lemma_words_append_word(a: Seq<char>, x: Seq<char>)
    requires
        is_word(x),
        a.len() == 0 || is_whitespace(a.last()),
    ensures
        words(a + x) == words(a).push(x),
    decreases x.len(),
{
    let c = x.last();
    let xs = x.drop_last();
    assert((a + x).drop_last() =~= a + xs);
    assert((a + x).last() == c);
    if xs.len() == 0 {
        assert(x =~= seq![c]);
        if a.len() > 0 {
            assert((a + x)[(a + x).len() - 2] == a.last());
        }
    } else {
        assert(is_word(xs)) by {
            assert forall|i: int| 0 <= i < xs.len() implies !is_whitespace(#[trigger] xs[i]) by {
                assert(xs[i] == x[i]);
            }
        }
        lemma_words_append_word(a, xs);
        assert((a + x)[(a + x).len() - 2] == xs.last());
        assert(xs.last() == x[xs.len() - 1]);
        assert(xs.push(c) =~= x);
        assert(words(a).push(xs).drop_last() =~= words(a));
    }
}

/// Joining words with single spaces and splitting the result at white space gives the
/// same words back.
pub proof fn lemma_words_of_joined(ws: Seq<Seq<char>>)
    requires
        forall|k: int| 0 <= k < ws.len() ==> is_word(#[trigger] ws[k]),
    ensures
        words(join_words(ws)) == ws,
    decreases ws.len(),
{
    if ws.len() == 1 {
        assert(Seq::<char>::empty() + ws[0] =~= ws[0]);
        lemma_words_append_word(Seq::<char>::empty(), ws[0]);
        assert(ws =~= Seq::<Seq<char>>::empty().push(ws[0]));
    } else if ws.len() >= 2 {
        let init = ws.drop_last();
        assert forall|k: int| 0 <= k < init.len() implies is_word(#[trigger] init[k]) by {
            assert(init[k] == ws[k]);
        }
        lemma_words_of_joined(init);
        let a = join_words(init) + seq![' '];
        assert(is_whitespace(' '));
        assert(a.drop_last() =~= join_words(init));
        assert(is_word(ws[ws.len() - 1]));
        lemma_words_append_word(a, ws.last());
        assert(ws =~= init.push(ws.last()));
    }
}

/// Only the words of a text count: writing them out again with one space between each
/// two, whatever white space stood before, between and after them, gives the same words.
pub proof fn lemma_words_respaced(s: Seq<char>)
    ensures
        words(join_words(words(s))) == words(s),
{
    lemma_words_are_words(s);
    lemma_words_of_joined(words(s));
}

/// The words of `s`, as `str::split_whitespace` yields them.
pub fn split_whitespace(s: &str) -> (r: Vec<&str>)
    ensures
        r@.map_values(|t: &str| t@) == words(s@),
        forall|k: int| 0 <= k < r@.len() ==> is_piece_of(#[trigger] r@[k]@, s@),
{
    let n = s.unicode_len();
    let mut toks: Vec<&str> = Vec::new();
    let mut start: usize = 0;
    let mut in_word = false;
    let mut i: usize = 0;
    while i < n
        invariant
            i <= n,
            n == s@.len(),
            in_word ==> start < i && !is_whitespace(s@[i - 1]),
            !in_word ==> (i == 0 || is_whitespace(s@[i - 1])),
            forall|k: int| 0 <= k < toks@.len() ==> is_piece_of(#[trigger] toks@[k]@, s@),
            toks@.map_values(|t: &str| t@) + (if in_word {
                seq![s@.subrange(start as int, i as int)]
            } else {
                Seq::<Seq<char>>::empty()
            }) == words(s@.take(i as int)),
        decreases n - i,
    {
        let c = s.get_char(i);
        let ghost old_toks = toks@.map_values(|t: &str| t@);
        let ghost pre = s@.take(i as int);
        assert(s@.take(i + 1).drop_last() =~= pre);
        assert(s@.take(i + 1).last() == c);
        if i > 0 {
            assert(s@.take(i + 1)[i - 1] == s@[i - 1]);
        }
        if char_is_whitespace(c) {
            if in_word {
                let t = s.substring_char(start, i);
                toks.push(t);
                assert(is_piece_of(t@, s@));
                assert(toks@.map_values(|t: &str| t@) =~= old_toks.push(
                    s@.subrange(start as int, i as int),
                ));
                assert(toks@.map_values(|t: &str| t@) =~= old_toks + seq![
                    s@.subrange(start as int, i as int),
                ]);
            }
            in_word = false;
        } else {
            if in_word {
                assert(old_toks + seq![s@.subrange(start as int, i as int)] == words(pre));
                assert(words(pre).drop_last() =~= old_toks);
                assert(words(pre).last() =~= s@.subrange(start as int, i as int));
                assert(s@.subrange(start as int, i + 1) =~= s@.subrange(start as int, i as int).push(c));
                assert(old_toks + seq![s@.subrange(start as int, i + 1)] =~= words(
                    s@.take(i + 1),
                ));
            } else {
                start = i;
                assert(s@.subrange(start as int, i + 1) =~= seq![c]);
                assert(old_toks + seq![s@.subrange(start as int, i + 1)] =~= words(
                    s@.take(i + 1),
                ));
                in_word = true;
            }
        }
        i = i + 1;
    }
    assert(s@.take(n as int) =~= s@);
    if in_word {
        let ghost old_toks = toks@.map_values(|t: &str| t@);
        let t = s.substring_char(start, n);
        toks.push(t);
        assert(is_piece_of(t@, s@));
        assert(toks@.map_values(|t: &str| t@) =~= old_toks + seq![s@.subrange(start as int, n as int)]);
    } else {
        assert(toks@.map_values(|t: &str| t@) =~= toks@.map_values(|t: &str| t@) + Seq::<
            Seq<char>,
        >::empty());
    }
    toks
}

/// Whether `c` is an ASCII digit.
pub open spec fn is_digit(c: char) -> bool {
    48 <= c as u32 <= 57
}

/// Whether every char of `s` is an ASCII digit.
pub open spec fn all_digits(s: Seq<char>) -> bool {
    forall|i: int| 0 <= i < s.len() ==> is_digit(#[trigger] s[i])
}

/// The number that a sequence of ASCII digits writes in decimal.
pub open spec fn digits_value(s: Seq<char>) -> int
    decreases s.len(),
{
    if s.len() == 0 {
        0
    } else {
        digits_value(s.drop_last()) * 10 + (s.last() as u32 - 48)
    }
}

/// The integer that `s` writes: an optional sign, '+' or '-', then one or more ASCII
/// digits, and nothing else.
pub open spec fn parse_int(s: Seq<char>) -> Option<int> {
    let signed = s.len() > 0 && (s[0] == '+' || s[0] == '-');
    let body = if signed { s.drop_first() } else { s };
    if body.len() > 0 && all_digits(body) {
        if signed && s[0] == '-' {
            Some(-digits_value(body))
        } else {
            Some(digits_value(body))
        }
    } else {
        None
    }
}

/// The `i32` that `s` writes, as `str::parse::<i32>` reads it: none when `s` is not an
/// integer or the integer does not fit.
pub open spec fn parse_i32(s: Seq<char>) -> Option<i32> {
    match parse_int(s) {
        Some(v) => if i32::MIN <= v <= i32::MAX {
            Some(v as i32)
        } else {
            None
        },
        None => None,
    }
}

/// The decimal digits of a number are digits, and read back as that number.
pub proof fn lemma_nat_digits_value(n: nat)
    ensures
        all_digits(nat_digits(n)),
        digits_value(nat_digits(n)) == n,
        nat_digits(n).len() > 0,
    decreases n,
{
    if n >= 10 {
        lemma_nat_digits_value(n / 10);
        let d = nat_digits(n);
        let h = nat_digits(n / 10);
        assert(d.drop_last() =~= h);
        assert(d.last() == digit_char(n % 10));
        assert(d.last() as u32 - 48 == n % 10);
        assert(digits_value(d) == digits_value(h) * 10 + (d.last() as u32 - 48));
        vstd::arithmetic::div_mod::lemma_fundamental_div_mod(n as int, 10);
        assert forall|i: int| 0 <= i < d.len() implies is_digit(#[trigger] d[i]) by {
            if i < h.len() {
                assert(d[i] == h[i]);
            }
        }
        assert(digits_value(h) * 10 + n % 10 == n);
        assert(digits_value(d) == n);
    } else {
        assert(nat_digits(n).drop_last() =~= Seq::<char>::empty());
        assert(digit_char(n) as u32 - 48 == n);
        assert(digits_value(nat_digits(n).drop_last()) == 0);
        assert(digits_value(nat_digits(n)) == n);
    }
}

/// The decimal text of an integer reads back as that integer: writing a number and
/// reading it again gives the number.
pub proof fn lemma_int_decimal_parses_back(x: int)
    ensures
        parse_int(int_decimal(x)) == Some(x),
{
    if x < 0 {
        let n = (-x) as nat;
        lemma_nat_digits_value(n);
        assert(int_decimal(x).drop_first() =~= nat_digits(n));
    } else {
        lemma_nat_digits_value(x as nat);
        let d = nat_digits(x as nat);
        assert(is_digit(d[0]));
    }
}

/// Reads `s` as an `i32`.
pub fn str_to_i32(s: &str) -> (r: Option<i32>)
    ensures
        r == parse_i32(s@),
{
    let n = s.unicode_len();
    if n == 0 {
        return None;
    }
    let first = s.get_char(0);
    let signed = first == '+' || first == '-';
    let negative = first == '-';
    let from: usize = if signed {
        1
    } else {
        0
    };
    let ghost body = if signed {
        s@.drop_first()
    } else {
        s@
    };
    if from == n {
        return None;
    }
    let limit: i64 = 2147483648;
    let mut acc: i64 = 0;
    let mut big = false;
    let mut i: usize = from;
    while i < n
        invariant
            from <= i <= n,
            n == s@.len(),
            from == (if signed { 1int } else { 0int }),
            signed == (s@.len() > 0 && (s@[0] == '+' || s@[0] == '-')),
            negative == (s@[0] == '-'),
            body == s@.skip(from as int),
            limit == 2147483648,
            forall|j: int| 0 <= j < i - from ==> is_digit(#[trigger] body[j]),
            !big ==> acc == digits_value(body.take(i - from)) && 0 <= acc <= limit,
            big ==> digits_value(body.take(i - from)) > limit,
        decreases n - i,
    {
        let c = s.get_char(i);
        let u = c as u32;
        let ghost k = i - from;
        assert(body[k] == c);
        if u < 48 || u > 57 {
            assert(!is_digit(body[k]));
            assert(!all_digits(body));
            return None;
        }
        let d = (u - 48) as i64;
        assert(body.take(k + 1).drop_last() =~= body.take(k));
        assert(body.take(k + 1).last() == c);
        if !big {
            let next = acc * 10 + d;
            if next > limit {
                big = true;
            } else {
                acc = next;
            }
        }
        i = i + 1;
    }
    assert(body.take(n - from) =~= body);
    assert(body.len() > 0);
    if big {
        return None;
    }
    if negative {
        Some((-acc) as i32)
    } else if acc == limit {
        None
    } else {
        Some(acc as i32)
    }
}

/// The number of bytes of the UTF-8 encoding of `s`, which is what `str::len` counts.
pub open spec fn byte_len(s: Seq<char>) -> int {
    encode_utf8(s).len() as int
}

/// Encoding a concatenation encodes its parts one after the other.
pub proof fn lemma_encode_utf8_add(a: Seq<char>, b: Seq<char>)
    ensures
        encode_utf8(a + b) == encode_utf8(a) + encode_utf8(b),
    decreases a.len(),
{
    if a.len() == 0 {
        assert(a + b =~= b);
        assert(encode_utf8(a) =~= Seq::<u8>::empty());
        assert(encode_utf8(a) + encode_utf8(b) =~= encode_utf8(b));
    } else {
        assert((a + b).drop_first() =~= a.drop_first() + b);
        assert((a + b)[0] == a[0]);
        lemma_encode_utf8_add(a.drop_first(), b);
        assert(encode_utf8(a + b) =~= encode_utf8(a) + encode_utf8(b));
    }
}

/// A stretch of a text takes no more bytes than the whole text.
pub proof fn lemma_piece_byte_len(t: Seq<char>, s: Seq<char>)
    requires
        is_piece_of(t, s),
    ensures
        byte_len(t) <= byte_len(s),
{
    let (a, b) = choose|a: int, b: int| 0 <= a <= b <= s.len() && t == s.subrange(a, b);
    assert(s =~= s.take(a) + (t + s.skip(b)));
    lemma_encode_utf8_add(s.take(a), t + s.skip(b));
    lemma_encode_utf8_add(t, s.skip(b));
}

/// Whether `s` starts with `prefix`, as `str::starts_with` decides.
pub fn str_starts_with(s: &str, prefix: &str) -> (r: bool)
    ensures
        r == prefix@.is_prefix_of(s@),
{
    let n = prefix.unicode_len();
    if n > s.unicode_len() {
        return false;
    }
    let mut i: usize = 0;
    while i < n
        invariant
            i <= n <= s@.len(),
            n == prefix@.len(),
            forall|j: int| 0 <= j < i ==> prefix@[j] == s@[j],
        decreases n - i,
    {
        if prefix.get_char(i) != s.get_char(i) {
            return false;
        }
        i = i + 1;
    }
    assert(prefix@ =~= s@.subrange(0, n as int));
    true
}

/// The Unicode lower-case form of a text, as `str::to_lowercase` gives it.
pub uninterp spec fn lowercase(s: Seq<char>) -> Seq<char>;

/// The lower-case form of `s`.
///
/// Calls `str::to_lowercase`, whose result depends on `s` alone (it maps each char by
/// Unicode's case tables, with a special rule for a final capital sigma); that result
/// is named `lowercase`, and nothing more is claimed of it.
#[verifier::external_body]
pub(crate) fn to_lowercase(s: &str) -> (r: String)
    ensures
        r@ == lowercase(s@),
{
    s.to_lowercase()
}

} // verus!
