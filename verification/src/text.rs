//! Verified text utilities shared by the composers: prefix and substring
//! tests, line splitting, decimal formatting and parsing, and lexicographic
//! ordering of strings.

use vstd::prelude::*;

verus! {

/// `p` is a prefix of `s`.
pub open spec fn is_prefix_of(p: Seq<char>, s: Seq<char>) -> bool {
    p.len() <= s.len() && s.subrange(0, p.len() as int) == p
}

/// Whether two string slices hold the same characters.
pub fn str_eq(a: &str, b: &str) -> (r: bool)
    ensures
        r == (a@ == b@),
{
    let x = a.to_owned();
    let y = b.to_owned();
    x == y
}

/// Whether `s` starts with the prefix `p`.
pub fn starts_with_str(s: &str, p: &str) -> (r: bool)
    ensures
        r == is_prefix_of(p@, s@),
{
    let n = p.unicode_len();
    if n > s.unicode_len() {
        assert(!is_prefix_of(p@, s@));
        false
    } else {
        let head = s.substring_char(0, n);
        let r = str_eq(head, p);
        assert(head@ == s@.subrange(0, p@.len() as int));
        r
    }
}

/// `p` occurs somewhere inside `s`.
pub open spec fn contains_seq(s: Seq<char>, p: Seq<char>) -> bool {
    exists|i: int| 0 <= i <= s.len() - p.len() && #[trigger] s.subrange(i, i + p.len()) == p
}

/// Whether `s` holds `p` as a substring.
pub fn contains_str(s: &str, p: &str) -> (r: bool)
    ensures
        r == contains_seq(s@, p@),
{
    let sl = s.unicode_len();
    let pl = p.unicode_len();
    if pl > sl {
        return false;
    }
    if pl == 0 {
        assert(s@.subrange(0, 0 + p@.len() as int) =~= p@);
        return true;
    }
    let mut i: usize = 0;
    while i <= sl - pl
        invariant
            0 < pl <= sl,
            sl == s@.len(),
            pl == p@.len(),
            i <= sl - pl + 1,
            forall|j: int| 0 <= j < i ==> #[trigger] s@.subrange(j, j + p@.len()) != p@,
        decreases sl - i,
    {
        let seg = s.substring_char(i, i + pl);
        if str_eq(seg, p) {
            assert(s@.subrange(i as int, i as int + p@.len()) == p@);
            return true;
        }
        i = i + 1;
    }
    false
}

/// The index of the first newline in `s`, or `s.len()` if there is none.
pub open spec fn newline_idx(s: Seq<char>) -> int
    decreases s.len(),
{
    if s.len() == 0 {
        0
    } else if s[0] == '\n' {
        0
    } else {
        1 + newline_idx(s.drop_first())
    }
}

/// `newline_idx` is exactly the position of the first newline: any index
/// before which no newline occurs, and which either is the length or holds
/// a newline, equals it.
pub proof fn lemma_newline_idx(s: Seq<char>, i: int)
    requires
        0 <= i <= s.len(),
        forall|k: int| 0 <= k < i ==> s[k] != '\n',
        i < s.len() ==> s[i] == '\n',
    ensures
        newline_idx(s) == i,
    decreases s.len(),
{
    if s.len() == 0 {
    } else if s[0] == '\n' {
        assert(i == 0);
    } else {
        assert(i >= 1);
        let t = s.drop_first();
        assert(forall|k: int| 0 <= k < i - 1 ==> t[k] == s[k + 1] && s[k + 1] != '\n');
        lemma_newline_idx(t, i - 1);
    }
}

/// The first line of `s`: everything before the first newline, with a
/// carriage return immediately preceding that newline stripped, as the
/// standard line iterator reports it.
pub open spec fn first_line_of(s: Seq<char>) -> Seq<char> {
    let n = newline_idx(s);
    let e = if n < s.len() && n > 0 && s[n - 1] == '\r' {
        n - 1
    } else {
        n
    };
    s.take(e)
}

/// Extracts the first line of `s`.
pub fn first_line(s: &str) -> (r: &str)
    ensures
        r@ == first_line_of(s@),
{
    let len = s.unicode_len();
    let mut i: usize = 0;
    while i < len && s.get_char(i) != '\n'
        invariant
            i <= len,
            len == s@.len(),
            forall|k: int| 0 <= k < i ==> s@[k] != '\n',
        decreases len - i,
    {
        i = i + 1;
    }
    proof {
        lemma_newline_idx(s@, i as int);
    }
    let e = if i < len && i > 0 && s.get_char(i - 1) == '\r' {
        i - 1
    } else {
        i
    };
    s.substring_char(0, e)
}

/// The lines of `s`, as the standard line iterator reports them: split at
/// newlines, each line stripped of one carriage return before its newline,
/// with no empty line after a trailing newline.
pub open spec fn lines_of(s: Seq<char>) -> Seq<Seq<char>>
    decreases s.len(),
{
    if s.len() == 0 {
        Seq::empty()
    } else {
        let n = newline_idx(s);
        if 0 <= n < s.len() {
            seq![first_line_of(s)] + lines_of(s.subrange(n + 1, s.len() as int))
        } else {
            seq![first_line_of(s)]
        }
    }
}

/// Splits `s` into its lines.
pub fn split_lines(s: &str) -> (r: Vec<String>)
    ensures
        r.deep_view() == lines_of(s@),
{
    let len = s.unicode_len();
    let mut out: Vec<String> = Vec::new();
    let mut pos: usize = 0;
    assert(s@.subrange(0, len as int) =~= s@);
    assert(out.deep_view() =~= Seq::<Seq<char>>::empty());
    while pos < len
        invariant
            pos <= len,
            len == s@.len(),
            out.deep_view() + lines_of(s@.subrange(pos as int, len as int)) =~= lines_of(s@),
        decreases len - pos,
    {
        let ghost rest = s@.subrange(pos as int, len as int);
        let mut i: usize = pos;
        while i < len && s.get_char(i) != '\n'
            invariant
                pos <= i <= len,
                len == s@.len(),
                forall|k: int| pos <= k < i ==> s@[k] != '\n',
            decreases len - i,
        {
            i = i + 1;
        }
        proof {
            assert(forall|k: int| 0 <= k < i - pos ==> rest[k] == s@[pos + k]);
            lemma_newline_idx(rest, i - pos);
        }
        let e = if i < len && i > pos && s.get_char(i - 1) == '\r' {
            i - 1
        } else {
            i
        };
        let line = s.substring_char(pos, e);
        assert(line@ =~= first_line_of(rest));
        let ghost old_dv = out.deep_view();
        out.push(line.to_owned());
        assert(out.deep_view() =~= old_dv.push(first_line_of(rest)));
        let next = if i < len {
            i + 1
        } else {
            len
        };
        proof {
            if i < len {
                assert(s@.subrange(next as int, len as int) =~= rest.subrange(
                    newline_idx(rest) + 1,
                    rest.len() as int,
                ));
                assert(lines_of(rest) == seq![first_line_of(rest)] + lines_of(
                    s@.subrange(next as int, len as int),
                ));
            } else {
                assert(lines_of(rest) == seq![first_line_of(rest)]);
                assert(s@.subrange(next as int, len as int) =~= Seq::<char>::empty());
            }
            assert(out.deep_view() + lines_of(s@.subrange(next as int, len as int)) =~= (old_dv
                + lines_of(rest)));
        }
        pos = next;
    }
    assert(s@.subrange(pos as int, len as int) =~= Seq::<char>::empty());
    assert(out.deep_view() =~= lines_of(s@));
    out
}

/// A decimal digit.
pub open spec fn is_digit(c: char) -> bool {
    '0' as u32 <= c as u32 <= '9' as u32
}

/// Every character of `s` is a decimal digit.
pub open spec fn all_digits(s: Seq<char>) -> bool {
    forall|i: int| 0 <= i < s.len() ==> is_digit(#[trigger] s[i])
}

/// The numeric value of a digit string (meaningful only when `all_digits`).
pub open spec fn digits_val(s: Seq<char>) -> int
    decreases s.len(),
{
    if s.len() == 0 {
        0
    } else {
        digits_val(s.drop_last()) * 10 + (s.last() as u32 - '0' as u32)
    }
}

/// A digit string's value is nonnegative and no prefix exceeds it.
pub proof fn lemma_digits_val_mono(s: Seq<char>, i: int)
    requires
        all_digits(s),
        0 <= i <= s.len(),
    ensures
        0 <= digits_val(s.take(i)) <= digits_val(s),
    decreases s.len(),
{
    if s.len() == 0 {
        assert(s.take(i) =~= s);
    } else {
        assert(all_digits(s.drop_last()));
        lemma_digits_val_mono(s.drop_last(), if i <= s.len() - 1 { i } else { s.len() - 1 });
        if i == s.len() {
            assert(s.take(i) =~= s);
        } else {
            assert(s.take(i) =~= s.drop_last().take(i));
        }
    }
}

/// `s` with one leading plus sign removed.
pub open spec fn plus_stripped(s: Seq<char>) -> Seq<char> {
    if s.len() > 0 && s[0] == '+' {
        s.drop_first()
    } else {
        s
    }
}

/// What the standard unsigned decimal parser accepts: an optional plus sign,
/// then one or more digits whose value fits.
pub open spec fn parse_u64_spec(s: Seq<char>) -> Option<u64> {
    let b = plus_stripped(s);
    if b.len() > 0 && all_digits(b) && digits_val(b) <= u64::MAX {
        Some(digits_val(b) as u64)
    } else {
        None
    }
}

/// Parses an unsigned decimal number, as the standard parser does.
pub fn parse_u64(s: &str) -> (r: Option<u64>)
    ensures
        r == parse_u64_spec(s@),
{
    let len = s.unicode_len();
    let start: usize = if len > 0 && s.get_char(0) == '+' {
        1
    } else {
        0
    };
    let ghost b = plus_stripped(s@);
    assert(b =~= s@.subrange(start as int, len as int));
    if start == len {
        return None;
    }
    let mut acc: u64 = 0;
    let mut i: usize = start;
    while i < len
        invariant
            start <= i <= len,
            len == s@.len(),
            b == plus_stripped(s@),
            b =~= s@.subrange(start as int, len as int),
            all_digits(b.take(i - start)),
            acc == digits_val(b.take(i - start)),
        decreases len - i,
    {
        let c = s.get_char(i);
        let code = c as u32;
        if code < '0' as u32 || code > '9' as u32 {
            assert(!all_digits(b)) by {
                assert(!is_digit(b[i - start]));
            }
            return None;
        }
        let d = (code - '0' as u32) as u64;
        proof {
            assert(b.take(i - start + 1).drop_last() =~= b.take(i - start));
        }
        if acc > (u64::MAX - d) / 10 {
            proof {
                if all_digits(b) {
                    assert(digits_val(b.take(i - start + 1)) == acc * 10 + d);
                    assert(acc * 10 + d > u64::MAX) by (nonlinear_arith)
                        requires
                            acc > (u64::MAX - d) / 10,
                            d <= 9,
                    ;
                    lemma_digits_val_mono(b, i - start + 1);
                }
            }
            return None;
        }
        proof {
            assert(acc * 10 + d <= u64::MAX) by (nonlinear_arith)
                requires
                    acc <= (u64::MAX - d) / 10,
                    d <= 9,
            ;
        }
        acc = acc * 10 + d;
        i = i + 1;
    }
    assert(b.take(i - start) =~= b);
    Some(acc)
}

/// The character of a single decimal digit.
pub open spec fn digit_char(d: int) -> char {
    if d == 0 {
        '0'
    } else if d == 1 {
        '1'
    } else if d == 2 {
        '2'
    } else if d == 3 {
        '3'
    } else if d == 4 {
        '4'
    } else if d == 5 {
        '5'
    } else if d == 6 {
        '6'
    } else if d == 7 {
        '7'
    } else if d == 8 {
        '8'
    } else {
        '9'
    }
}

/// The decimal rendering of a nonnegative number, most significant digit
/// first, without leading zeros.
pub open spec fn dec_str_of(n: int) -> Seq<char>
    decreases n,
{
    if n < 10 {
        seq![digit_char(n)]
    } else {
        dec_str_of(n / 10).push(digit_char(n % 10))
    }
}

fn digit_str(d: u64) -> (r: &'static str)
    requires
        d < 10,
    ensures
        r@ =~= seq![digit_char(d as int)],
{
    if d == 0 {
        proof {
            reveal_strlit("0");
        }
        "0"
    } else if d == 1 {
        proof {
            reveal_strlit("1");
        }
        "1"
    } else if d == 2 {
        proof {
            reveal_strlit("2");
        }
        "2"
    } else if d == 3 {
        proof {
            reveal_strlit("3");
        }
        "3"
    } else if d == 4 {
        proof {
            reveal_strlit("4");
        }
        "4"
    } else if d == 5 {
        proof {
            reveal_strlit("5");
        }
        "5"
    } else if d == 6 {
        proof {
            reveal_strlit("6");
        }
        "6"
    } else if d == 7 {
        proof {
            reveal_strlit("7");
        }
        "7"
    } else if d == 8 {
        proof {
            reveal_strlit("8");
        }
        "8"
    } else {
        proof {
            reveal_strlit("9");
        }
        "9"
    }
}

/// Appends the decimal rendering of `n` to `out`.
pub fn push_dec(out: &mut String, n: u64)
    ensures
        final(out)@ == old(out)@ + dec_str_of(n as int),
    decreases n,
{
    let ghost pre = out@;
    if n >= 10 {
        push_dec(out, n / 10);
    }
    let ds = digit_str(n % 10);
    out.append(ds);
    proof {
        if n >= 10 {
            assert(out@ =~= pre + dec_str_of(n as int));
        } else {
            assert(out@ =~= pre + dec_str_of(n as int));
        }
    }
}

/// The decimal rendering of `n`.
pub fn u64_to_dec(n: u64) -> (r: String)
    ensures
        r@ == dec_str_of(n as int),
{
    let mut s = String::new();
    push_dec(&mut s, n);
    assert(s@ =~= dec_str_of(n as int));
    s
}

/// Lexicographic order on character sequences, by code point; a proper
/// prefix sorts before its extensions.
pub open spec fn lex_leq(a: Seq<char>, b: Seq<char>) -> bool
    decreases a.len(),
{
    if a.len() == 0 {
        true
    } else if b.len() == 0 {
        false
    } else if (a[0] as u32) < (b[0] as u32) {
        true
    } else if (a[0] as u32) > (b[0] as u32) {
        false
    } else {
        lex_leq(a.drop_first(), b.drop_first())
    }
}

/// The lexicographic order is total.
pub proof fn lemma_lex_total(a: Seq<char>, b: Seq<char>)
    ensures
        lex_leq(a, b) || lex_leq(b, a),
    decreases a.len(),
{
    if a.len() != 0 && b.len() != 0 && a[0] as u32 == b[0] as u32 {
        lemma_lex_total(a.drop_first(), b.drop_first());
    }
}

/// Compares two strings in lexicographic order.
pub fn str_lex_leq(a: &str, b: &str) -> (r: bool)
    ensures
        r == lex_leq(a@, b@),
{
    let al = a.unicode_len();
    let bl = b.unicode_len();
    let mut i: usize = 0;
    assert(a@.skip(0) =~= a@);
    assert(b@.skip(0) =~= b@);
    while i < al && i < bl
        invariant
            i <= al,
            i <= bl,
            al == a@.len(),
            bl == b@.len(),
            lex_leq(a@, b@) == lex_leq(a@.skip(i as int), b@.skip(i as int)),
        decreases al - i,
    {
        let ca = a.get_char(i);
        let cb = b.get_char(i);
        if (ca as u32) < (cb as u32) {
            return true;
        }
        if (ca as u32) > (cb as u32) {
            return false;
        }
        proof {
            assert(a@.skip(i as int).drop_first() =~= a@.skip(i as int + 1));
            assert(b@.skip(i as int).drop_first() =~= b@.skip(i as int + 1));
        }
        i = i + 1;
    }
    al <= bl
}

} // verus!
