use vstd::prelude::*;

verus! {

/// `String: FromIterator<char>` of std, collecting characters in order: the string holds
/// exactly those characters.
#[verifier::external_body]
pub fn string_from_chars(chars: &Vec<char>) -> (r: String)
    ensures
        r@ == chars@,
{
    chars.iter().collect()
}

/// The name of a square: its file letter then its rank digit.
pub open spec fn square_name(s: int) -> Seq<char> {
    seq![(('a' as int) + s % 8) as char, (('1' as int) + s / 8) as char]
}

/// Appends the name of a square to a list of characters.
pub fn push_square_name(out: &mut Vec<char>, s: u8)
    requires
        s < 64,
    ensures
        final(out)@ == old(out)@ + square_name(s as int),
{
    let file = (('a' as u8) + s % 8) as char;
    let rank = (('1' as u8) + s / 8) as char;
    out.push(file);
    out.push(rank);
    assert(final(out)@ =~= old(out)@ + square_name(s as int));
}

/// The characters of a string, in order.
pub fn chars_of(s: &str) -> (r: Vec<char>)
    ensures
        r@ == s@,
{
    let mut out: Vec<char> = Vec::new();
    broadcast use vstd::string::axiom_spec_iter;
    for c in it: s.chars()
        invariant
            out@ == it.seq().take(it.index() as int),
            it.seq() == s@,
    {
        out.push(c);
        assert(out@ == it.seq().take(it.index() + 1));
    }
    out
}

/// Appends the characters of a string.
pub fn push_str(out: &mut Vec<char>, s: &str)
    ensures
        final(out)@ == old(out)@ + s@,
{
    broadcast use vstd::string::axiom_spec_iter;
    for c in it: s.chars()
        invariant
            out@ == old(out)@ + it.seq().take(it.index() as int),
            it.seq() == s@,
    {
        out.push(c);
        assert(out@ =~= old(out)@ + it.seq().take(it.index() + 1));
    }
    assert(s@.take(s@.len() as int) =~= s@);
}

/// The decimal digit of a number below ten.
pub open spec fn digit_char(d: int) -> char {
    (('0' as int) + d) as char
}

/// A number written in decimal, without leading zeros ("0" for zero).
pub open spec fn dec_text(n: nat) -> Seq<char>
    decreases n,
{
    if n < 10 {
        seq![digit_char(n as int)]
    } else {
        dec_text(n / 10) + seq![digit_char((n % 10) as int)]
    }
}

/// A number written in decimal reads back as that number.
pub proof fn lemma_decimal_reads_back(n: u64)
    ensures
        u64_of(dec_text(n as nat)) == Some(n),
{
    lemma_dec_text(n as nat);
}

proof fn lemma_dec_text(n: nat)
    ensures
        dec_text(n).len() > 0,
        all_digits(dec_text(n)),
        decimal(dec_text(n)) == n,
        dec_text(n)[0] != '+',
    decreases n,
{
    if n >= 10 {
        lemma_dec_text(n / 10);
        let s = dec_text(n);
        assert(s.drop_last() =~= dec_text(n / 10));
    } else {
        assert(decimal(dec_text(n).drop_last()) == 0);
    }
}

/// Appends a number written in decimal.
pub fn push_decimal(out: &mut Vec<char>, n: u64)
    ensures
        final(out)@ == old(out)@ + dec_text(n as nat),
    decreases n,
{
    if n >= 10 {
        push_decimal(out, n / 10);
    }
    let d = (n % 10) as u8;
    out.push((('0' as u8) + d) as char);
    assert(final(out)@ =~= old(out)@ + dec_text(n as nat));
}

/// The first index at or after `i` where `c` followed by a space starts in `s`.
pub open spec fn separator_from(s: Seq<char>, c: char, i: int) -> Option<int>
    decreases s.len() - i,
{
    if i < 0 || i + 1 >= s.len() {
        None
    } else if s[i] == c && s[i + 1] == ' ' {
        Some(i)
    } else {
        separator_from(s, c, i + 1)
    }
}

/// Finds `c` followed by a space at or after `from`.
pub fn find_separator(s: &Vec<char>, c: char, from: usize) -> (r: Option<usize>)
    requires
        from <= s@.len(),
    ensures
        match r {
            Some(j) => separator_from(s@, c, from as int) == Some(j as int) && from <= j && j + 2 <= s@.len(),
            None => separator_from(s@, c, from as int) is None,
        },
    decreases s@.len() - from,
{
    if from >= s.len() || s.len() - from < 2 {
        None
    } else if s[from] == c && s[from + 1] == ' ' {
        Some(from)
    } else {
        find_separator(s, c, from + 1)
    }
}

/// The characters of `s` from `start` up to `end`.
pub fn slice_chars(s: &Vec<char>, start: usize, end: usize) -> (r: Vec<char>)
    requires
        start <= end <= s@.len(),
    ensures
        r@ == s@.subrange(start as int, end as int),
{
    let mut out: Vec<char> = Vec::new();
    let mut i = start;
    while i < end
        invariant
            start <= i <= end <= s@.len(),
            out@ == s@.subrange(start as int, i as int),
        decreases end - i,
    {
        out.push(s[i]);
        i += 1;
        assert(out@ =~= s@.subrange(start as int, i as int));
    }
    out
}

/// The pieces of `s` between single spaces, as `str::split(' ')` gives them: one more piece
/// than there are spaces, empty pieces included.
pub open spec fn split_spaces(s: Seq<char>) -> Seq<Seq<char>>
    decreases s.len(),
{
    if s.len() == 0 {
        seq![Seq::<char>::empty()]
    } else {
        let p = split_spaces(s.drop_last());
        if s.last() == ' ' {
            p.push(Seq::<char>::empty())
        } else {
            p.update(p.len() - 1, p.last().push(s.last()))
        }
    }
}

proof fn lemma_split_spaces_len(s: Seq<char>)
    ensures
        split_spaces(s).len() >= 1,
    decreases s.len(),
{
    if s.len() > 0 {
        lemma_split_spaces_len(s.drop_last());
    }
}

/// Splits at every space.
pub fn split_at_spaces(s: &Vec<char>) -> (r: Vec<Vec<char>>)
    ensures
        r@.len() == split_spaces(s@).len(),
        forall|i: int| 0 <= i < r@.len() ==> #[trigger] r@[i]@ == split_spaces(s@)[i],
{
    let mut parts: Vec<Vec<char>> = Vec::new();
    let mut cur: Vec<char> = Vec::new();
    let mut i: usize = 0;
    while i < s.len()
        invariant
            i <= s@.len(),
            parts@.len() + 1 == split_spaces(s@.take(i as int)).len(),
            forall|j: int| 0 <= j < parts@.len() ==> #[trigger] parts@[j]@ == split_spaces(s@.take(i as int))[j],
            cur@ == split_spaces(s@.take(i as int)).last(),
        decreases s.len() - i,
    {
        let c = s[i];
        proof {
            assert(s@.take(i + 1).drop_last() =~= s@.take(i as int));
            lemma_split_spaces_len(s@.take(i as int));
        }
        if c == ' ' {
            parts.push(cur);
            cur = Vec::new();
        } else {
            cur.push(c);
        }
        i += 1;
    }
    parts.push(cur);
    assert(s@.take(s@.len() as int) =~= s@);
    parts
}

/// The Unicode white space characters, which `str::split_whitespace` splits at.
pub open spec fn is_space(c: char) -> bool {
    ||| '\u{9}' <= c <= '\u{d}'
    ||| c == ' '
    ||| c == '\u{85}'
    ||| c == '\u{a0}'
    ||| c == '\u{1680}'
    ||| '\u{2000}' <= c <= '\u{200a}'
    ||| c == '\u{2028}'
    ||| c == '\u{2029}'
    ||| c == '\u{202f}'
    ||| c == '\u{205f}'
    ||| c == '\u{3000}'
}

/// The ASCII white space characters, which `str::split_ascii_whitespace` splits at.
pub open spec fn is_ascii_space(c: char) -> bool {
    c == ' ' || c == '\t' || c == '\n' || c == '\u{c}' || c == '\r'
}

/// A separator: Unicode white space, or only ASCII white space when `ascii`.
pub open spec fn is_sep(c: char, ascii: bool) -> bool {
    if ascii { is_ascii_space(c) } else { is_space(c) }
}

fn sep_char(c: char, ascii: bool) -> (r: bool)
    ensures
        r == is_sep(c, ascii),
{
    if ascii {
        c == ' ' || c == '\t' || c == '\n' || c == '\u{c}' || c == '\r'
    } else {
        space_char(c)
    }
}

fn space_char(c: char) -> (r: bool)
    ensures
        r == is_space(c),
{
    ('\u{9}' <= c && c <= '\u{d}') || c == ' ' || c == '\u{85}' || c == '\u{a0}' || c
        == '\u{1680}' || ('\u{2000}' <= c && c <= '\u{200a}') || c == '\u{2028}' || c == '\u{2029}'
        || c == '\u{202f}' || c == '\u{205f}' || c == '\u{3000}'
}

/// The finished words of `s` and the word still open at its end.
pub open spec fn words_acc(s: Seq<char>, ascii: bool) -> (Seq<Seq<char>>, Seq<char>)
    decreases s.len(),
{
    if s.len() == 0 {
        (Seq::empty(), Seq::empty())
    } else {
        let (done, cur) = words_acc(s.drop_last(), ascii);
        if is_sep(s.last(), ascii) {
            if cur.len() > 0 {
                (done.push(cur), Seq::empty())
            } else {
                (done, cur)
            }
        } else {
            (done, cur.push(s.last()))
        }
    }
}

/// The non-empty runs of non-separator characters of `s`: as `str::split_whitespace`
/// gives them, or `str::split_ascii_whitespace` when `ascii`.
pub open spec fn words_by(s: Seq<char>, ascii: bool) -> Seq<Seq<char>> {
    let (done, cur) = words_acc(s, ascii);
    if cur.len() > 0 {
        done.push(cur)
    } else {
        done
    }
}

/// The words of `s` between Unicode white space.
pub open spec fn words(s: Seq<char>) -> Seq<Seq<char>> {
    words_by(s, false)
}

/// Splits at runs of white space, dropping empty words.
pub fn split_words(s: &Vec<char>) -> (r: Vec<Vec<char>>)
    ensures
        r@.len() == words(s@).len(),
        forall|i: int| 0 <= i < r@.len() ==> #[trigger] r@[i]@ == words(s@)[i],
{
    split_words_by(s, false)
}

/// Splits at runs of separators, dropping empty words.
pub fn split_words_by(s: &Vec<char>, ascii: bool) -> (r: Vec<Vec<char>>)
    ensures
        r@.len() == words_by(s@, ascii).len(),
        forall|i: int| 0 <= i < r@.len() ==> #[trigger] r@[i]@ == words_by(s@, ascii)[i],
{
    let mut done: Vec<Vec<char>> = Vec::new();
    let mut cur: Vec<char> = Vec::new();
    let mut i: usize = 0;
    while i < s.len()
        invariant
            i <= s@.len(),
            done@.len() == words_acc(s@.take(i as int), ascii).0.len(),
            forall|j: int| 0 <= j < done@.len() ==> #[trigger] done@[j]@ == words_acc(s@.take(i as int), ascii).0[j],
            cur@ == words_acc(s@.take(i as int), ascii).1,
        decreases s.len() - i,
    {
        let c = s[i];
        proof {
            assert(s@.take(i + 1).drop_last() =~= s@.take(i as int));
        }
        if sep_char(c, ascii) {
            if cur.len() > 0 {
                done.push(cur);
                cur = Vec::new();
            }
        } else {
            cur.push(c);
        }
        i += 1;
    }
    assert(s@.take(s@.len() as int) =~= s@);
    if cur.len() > 0 {
        done.push(cur);
    }
    done
}

/// The value of a string of decimal digits.
pub open spec fn decimal(s: Seq<char>) -> nat
    decreases s.len(),
{
    if s.len() == 0 {
        0
    } else {
        decimal(s.drop_last()) * 10 + ((s.last() as int - '0' as int) as nat)
    }
}

pub open spec fn all_digits(s: Seq<char>) -> bool {
    forall|i: int| 0 <= i < s.len() ==> '0' <= #[trigger] s[i] <= '9'
}

/// What `str::parse::<u8>` gives: an optional `+`, then at least one decimal digit, with a
/// value that fits in a byte.
pub open spec fn u8_of(s: Seq<char>) -> Option<u8> {
    let digits = if s.len() > 0 && s[0] == '+' { s.drop_first() } else { s };
    if digits.len() == 0 || !all_digits(digits) || decimal(digits) > 255 {
        None
    } else {
        Some(decimal(digits) as u8)
    }
}

/// Reads a byte in decimal.
pub fn parse_u8(s: &Vec<char>) -> (r: Option<u8>)
    ensures
        r == u8_of(s@),
{
    let start: usize = if s.len() > 0 && s[0] == '+' { 1 } else { 0 };
    let ghost digits = if s@.len() > 0 && s@[0] == '+' { s@.drop_first() } else { s@ };
    if start >= s.len() {
        return None;
    }
    let mut value: u32 = 0;
    let mut big = false;
    let mut i = start;
    while i < s.len()
        invariant
            start <= i <= s@.len(),
            start == s@.len() - digits.len(),
            digits == (if s@.len() > 0 && s@[0] == '+' { s@.drop_first() } else { s@ }),
            digits == s@.subrange(start as int, s@.len() as int),
            all_digits(s@.subrange(start as int, i as int)),
            big ==> decimal(s@.subrange(start as int, i as int)) > 255,
            !big ==> value == decimal(s@.subrange(start as int, i as int)) && value <= 255,
        decreases s.len() - i,
    {
        let c = s[i];
        if !('0' <= c && c <= '9') {
            proof {
                assert(digits[i - start] == c);
                assert(!all_digits(digits));
            }
            return None;
        }
        proof {
            assert(s@.subrange(start as int, i + 1).drop_last() =~= s@.subrange(start as int, i as int));
        }
        let d = (c as u32) - ('0' as u32);
        if !big {
            value = value * 10 + d;
            if value > 255 {
                big = true;
            }
        } else {
            proof {
                let p = s@.subrange(start as int, i as int);
                assert(decimal(p) * 10 >= decimal(p)) by (nonlinear_arith);
            }
        }
        i += 1;
    }
    assert(s@.subrange(start as int, s@.len() as int) =~= digits);
    if big {
        None
    } else {
        Some(value as u8)
    }
}

/// What `str::parse::<u64>` gives: an optional `+`, then at least one decimal digit, with a
/// value that fits in 64 bits.
pub open spec fn u64_of(s: Seq<char>) -> Option<u64> {
    let digits = if s.len() > 0 && s[0] == '+' { s.drop_first() } else { s };
    if digits.len() == 0 || !all_digits(digits) || decimal(digits) > u64::MAX {
        None
    } else {
        Some(decimal(digits) as u64)
    }
}

/// Reads a 64-bit number in decimal.
pub fn parse_u64(s: &Vec<char>) -> (r: Option<u64>)
    ensures
        r == u64_of(s@),
{
    let start: usize = if s.len() > 0 && s[0] == '+' { 1 } else { 0 };
    let ghost digits = if s@.len() > 0 && s@[0] == '+' { s@.drop_first() } else { s@ };
    if start >= s.len() {
        return None;
    }
    let mut value: u128 = 0;
    let mut big = false;
    let mut i = start;
    while i < s.len()
        invariant
            start <= i <= s@.len(),
            start == s@.len() - digits.len(),
            digits == (if s@.len() > 0 && s@[0] == '+' { s@.drop_first() } else { s@ }),
            digits == s@.subrange(start as int, s@.len() as int),
            all_digits(s@.subrange(start as int, i as int)),
            big ==> decimal(s@.subrange(start as int, i as int)) > u64::MAX,
            !big ==> value == decimal(s@.subrange(start as int, i as int)) && value <= u64::MAX,
        decreases s.len() - i,
    {
        let c = s[i];
        if !('0' <= c && c <= '9') {
            proof {
                assert(digits[i - start] == c);
                assert(!all_digits(digits));
            }
            return None;
        }
        proof {
            assert(s@.subrange(start as int, i + 1).drop_last() =~= s@.subrange(start as int, i as int));
        }
        let d = ((c as u32) - ('0' as u32)) as u128;
        if !big {
            value = value * 10 + d;
            if value > u64::MAX as u128 {
                big = true;
            }
        } else {
            proof {
                let p = s@.subrange(start as int, i as int);
                assert(decimal(p) * 10 >= decimal(p)) by (nonlinear_arith);
            }
        }
        i += 1;
    }
    assert(s@.subrange(start as int, s@.len() as int) =~= digits);
    if big {
        None
    } else {
        Some(value as u64)
    }
}

} // verus!
