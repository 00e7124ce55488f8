//! Strings as sequences of characters: Unicode lower-casing (a std call),
//! trimming white space, decimal text and splitting at a separator.
use vstd::prelude::*;

verus! {

/// The Unicode lower-case mapping of a whole string, as `str::to_lowercase`
/// computes it (special casing and final sigma included).
pub uninterp spec fn lowercase(s: Seq<char>) -> Seq<char>;

/// `str::to_lowercase`: the lower-case form of `s`, named `lowercase`.
#[verifier::external_body]
pub(crate) fn to_lowercase(s: &str) -> (r: String)
    ensures
        r@ == lowercase(s@),
{
    s.to_lowercase()
}

/// The characters with the Unicode `White_Space` property.
pub open spec fn is_white_space(c: char) -> bool {
    let u = c as u32;
    ||| 0x9 <= u <= 0xd
    ||| u == 0x20
    ||| u == 0x85
    ||| u == 0xa0
    ||| u == 0x1680
    ||| 0x2000 <= u <= 0x200a
    ||| u == 0x2028
    ||| u == 0x2029
    ||| u == 0x202f
    ||| u == 0x205f
    ||| u == 0x3000
}

/// `s` without its leading white space.
pub open spec fn trim_start(s: Seq<char>) -> Seq<char>
    decreases s.len(),
{
    if s.len() > 0 && is_white_space(s[0]) {
        trim_start(s.drop_first())
    } else {
        s
    }
}

/// `s` without its trailing white space.
pub open spec fn trim_end(s: Seq<char>) -> Seq<char>
    decreases s.len(),
{
    if s.len() > 0 && is_white_space(s.last()) {
        trim_end(s.drop_last())
    } else {
        s
    }
}

/// `s` without leading and trailing white space.
pub open spec fn trimmed(s: Seq<char>) -> Seq<char> {
    trim_end(trim_start(s))
}

fn is_white_space_char(c: char) -> (r: bool)
    ensures
        r == is_white_space(c),
{
    let u = c as u32;
    (0x9 <= u && u <= 0xd) || u == 0x20 || u == 0x85 || u == 0xa0 || u == 0x1680 || (0x2000 <= u && u <= 0x200a)
        || u == 0x2028 || u == 0x2029 || u == 0x202f || u == 0x205f || u == 0x3000
}

/// `s` without leading and trailing `White_Space` characters, as
/// `str::trim` gives it.
pub(crate) fn trim<'a>(s: &'a str) -> (r: &'a str)
    ensures
        r@ == trimmed(s@),
{
    let n = s.unicode_len();
    let mut start: usize = 0;
    assert(s@.subrange(0, n as int) =~= s@);
    while start < n && is_white_space_char(s.get_char(start))
        invariant
            n == s@.len(),
            start <= n,
            trim_start(s@) == trim_start(s@.subrange(start as int, n as int)),
        decreases n - start,
    {
        assert(s@.subrange(start as int, n as int).drop_first() =~= s@.subrange(start + 1, n as int));
        start = start + 1;
    }
    let ghost rest = s@.subrange(start as int, n as int);
    assert(trim_start(s@) == rest);
    let mut end: usize = n;
    while end > start && is_white_space_char(s.get_char(end - 1))
        invariant
            n == s@.len(),
            start <= end <= n,
            rest == s@.subrange(start as int, n as int),
            trim_end(rest) == trim_end(s@.subrange(start as int, end as int)),
        decreases end - start,
    {
        assert(s@.subrange(start as int, end as int).drop_last() =~= s@.subrange(start as int, end - 1));
        end = end - 1;
    }
    assert(trim_end(rest) == s@.subrange(start as int, end as int));
    s.substring_char(start, end)
}

/// The pieces of `s` between occurrences of `sep`, as `str::split` gives
/// them: one more piece than there are separators, empty pieces included.
pub open spec fn split(s: Seq<char>, sep: char) -> Seq<Seq<char>>
    decreases s.len(),
{
    if s.len() == 0 {
        seq![Seq::empty()]
    } else {
        let r = split(s.drop_last(), sep);
        if s.last() == sep {
            r.push(Seq::empty())
        } else {
            r.update(r.len() - 1, r.last().push(s.last()))
        }
    }
}

/// `split` always gives at least one piece.
pub proof fn lemma_split_nonempty(s: Seq<char>, sep: char)
    ensures
        split(s, sep).len() >= 1,
    decreases s.len(),
{
    if s.len() > 0 {
        lemma_split_nonempty(s.drop_last(), sep);
    }
}

/// `pieces` joined with `sep` between them.
pub open spec fn join_with(pieces: Seq<Seq<char>>, sep: char) -> Seq<char>
    decreases pieces.len(),
{
    if pieces.len() <= 1 {
        if pieces.len() == 1 {
            pieces[0]
        } else {
            Seq::empty()
        }
    } else {
        join_with(pieces.drop_last(), sep).push(sep) + pieces.last()
    }
}

/// Splitting loses nothing and finds every separator: no piece holds `sep`,
/// and the pieces joined with `sep` give back `s`.
pub proof fn law_split_pieces(s: Seq<char>, sep: char)
    ensures
        join_with(split(s, sep), sep) == s,
        forall|i: int| 0 <= i < split(s, sep).len() ==> !(#[trigger] split(s, sep)[i]).contains(sep),
    decreases s.len(),
{
    if s.len() == 0 {
        assert(join_with(split(s, sep), sep) =~= s);
    } else {
        let prev = s.drop_last();
        law_split_pieces(prev, sep);
        lemma_split_nonempty(prev, sep);
        let r = split(prev, sep);
        let c = s.last();
        if c == sep {
            let q = r.push(Seq::empty());
            assert(q.drop_last() =~= r);
            assert(join_with(q, sep) =~= join_with(r, sep).push(sep) + Seq::<char>::empty());
            assert(join_with(q, sep) =~= s);
            assert forall|i: int| 0 <= i < q.len() implies !(#[trigger] q[i]).contains(sep) by {
                if i < r.len() {
                    assert(q[i] == r[i]);
                }
            }
        } else {
            let n = r.len();
            let q = r.update(n - 1, r.last().push(c));
            if n == 1 {
                assert(join_with(q, sep) =~= r[0].push(c));
                assert(join_with(r, sep) == r[0]);
            } else {
                assert(q.drop_last() =~= r.drop_last());
                assert(join_with(q, sep) =~= join_with(r.drop_last(), sep).push(sep) + r.last().push(c));
                assert(join_with(r, sep) == join_with(r.drop_last(), sep).push(sep) + r.last());
            }
            assert(join_with(q, sep) =~= join_with(r, sep).push(c));
            assert(prev.push(c) =~= s);
            assert(join_with(q, sep) =~= s);
            assert forall|i: int| 0 <= i < q.len() implies !(#[trigger] q[i]).contains(sep) by {
                if i < n - 1 {
                    assert(q[i] == r[i]);
                } else {
                    assert(!r[n - 1].contains(sep));
                    if r.last().push(c).contains(sep) {
                        let k = choose|k: int| 0 <= k < r.last().push(c).len() && r.last().push(c)[k] == sep;
                        assert(r.last()[k] == sep);
                    }
                }
            }
        }
    }
}

/// Appending text without `sep` extends the last piece.
proof fn lemma_split_append(s: Seq<char>, t: Seq<char>, sep: char)
    requires
        !t.contains(sep),
    ensures
        split(s + t, sep) == split(s, sep).update(split(s, sep).len() - 1, split(s, sep).last() + t),
    decreases t.len(),
{
    lemma_split_nonempty(s, sep);
    if t.len() == 0 {
        assert(s + t =~= s);
        assert(split(s, sep).last() + t =~= split(s, sep).last());
        assert(split(s, sep).update(split(s, sep).len() - 1, split(s, sep).last()) =~= split(s, sep));
    } else {
        let t0 = t.drop_last();
        let c = t.last();
        assert(!t0.contains(sep)) by {
            if t0.contains(sep) {
                let k = choose|k: int| 0 <= k < t0.len() && t0[k] == sep;
                assert(t[k] == sep);
            }
        }
        assert(c != sep) by {
            assert(t[t.len() - 1] == c);
        }
        lemma_split_append(s, t0, sep);
        assert((s + t).drop_last() =~= s + t0);
        assert((s + t).last() == c);
        let r = split(s, sep);
        let r2 = split(s + t0, sep);
        assert(r2 == r.update(r.len() - 1, r.last() + t0));
        assert(r2.len() == r.len());
        assert(r2.last() == r.last() + t0);
        assert(split(s + t, sep) == r2.update(r2.len() - 1, r2.last().push(c)));
        assert((r.last() + t0).push(c) =~= r.last() + t);
        assert(split(s + t, sep) =~= r.update(r.len() - 1, r.last() + t));
    }
}

/// Splitting pieces that hold no `sep` after joining them with `sep`
/// gives the pieces back.
pub proof fn law_split_join_inverse(pieces: Seq<Seq<char>>, sep: char)
    requires
        pieces.len() >= 1,
        forall|i: int| 0 <= i < pieces.len() ==> !(#[trigger] pieces[i]).contains(sep),
    ensures
        split(join_with(pieces, sep), sep) == pieces,
    decreases pieces.len(),
{
    if pieces.len() == 1 {
        lemma_split_append(Seq::empty(), pieces[0], sep);
        assert(Seq::<char>::empty() + pieces[0] =~= pieces[0]);
        assert(split(Seq::<char>::empty(), sep).update(0, Seq::<char>::empty() + pieces[0]) =~= pieces);
    } else {
        let dl = pieces.drop_last();
        law_split_join_inverse(dl, sep);
        let j = join_with(dl, sep);
        assert(j.push(sep).drop_last() =~= j);
        assert(split(j.push(sep), sep) == split(j, sep).push(Seq::empty()));
        assert(!pieces.last().contains(sep));
        lemma_split_append(j.push(sep), pieces.last(), sep);
        let r = dl.push(Seq::<char>::empty());
        assert(r.update(r.len() - 1, r.last() + pieces.last()) =~= pieces);
    }
}

/// Trimming removes white space from the ends only: `s` is white space,
/// then the trimmed text, then white space, and the trimmed text neither
/// starts nor ends with white space.
pub proof fn law_trimmed(s: Seq<char>)
    ensures
        exists|a: int, b: int|
            0 <= a <= b <= s.len() && trimmed(s) == s.subrange(a, b) && (forall|i: int|
                0 <= i < a ==> is_white_space(#[trigger] s[i])) && (forall|i: int|
                b <= i < s.len() ==> is_white_space(#[trigger] s[i])),
        trimmed(s).len() > 0 ==> !is_white_space(trimmed(s)[0]) && !is_white_space(trimmed(s).last()),
{
    let (a, t) = lemma_trim_start(s);
    let b = lemma_trim_end(t);
    assert(trimmed(s) == s.subrange(a, a + b));
    assert forall|i: int| a + b <= i < s.len() implies is_white_space(#[trigger] s[i]) by {
        assert(s[i] == t[i - a]);
    }
    if trimmed(s).len() > 0 {
        assert(trimmed(s)[0] == t[0]);
    }
}

/// `trim_start` drops the first `a` characters, all white space, and keeps
/// a sequence that does not start with white space.
proof fn lemma_trim_start(s: Seq<char>) -> (r: (int, Seq<char>))
    ensures
        0 <= r.0 <= s.len(),
        r.1 == s.skip(r.0),
        trim_start(s) == r.1,
        forall|i: int| 0 <= i < r.0 ==> is_white_space(#[trigger] s[i]),
        r.1.len() > 0 ==> !is_white_space(r.1[0]),
    decreases s.len(),
{
    if s.len() > 0 && is_white_space(s[0]) {
        let (a, t) = lemma_trim_start(s.drop_first());
        assert forall|i: int| 0 <= i < a + 1 implies is_white_space(#[trigger] s[i]) by {
            if i > 0 {
                assert(s[i] == s.drop_first()[i - 1]);
            }
        }
        assert(s.drop_first().skip(a) =~= s.skip(a + 1));
        (a + 1, t)
    } else {
        assert(s.skip(0) =~= s);
        (0, s)
    }
}

/// `trim_end` keeps the first `b` characters and drops the rest, all white
/// space; what it keeps does not end with white space.
proof fn lemma_trim_end(s: Seq<char>) -> (b: int)
    ensures
        0 <= b <= s.len(),
        trim_end(s) == s.take(b),
        forall|i: int| b <= i < s.len() ==> is_white_space(#[trigger] s[i]),
        b > 0 ==> !is_white_space(s[b - 1]),
    decreases s.len(),
{
    if s.len() > 0 && is_white_space(s.last()) {
        let b = lemma_trim_end(s.drop_last());
        assert(s.drop_last().take(b) =~= s.take(b));
        assert forall|i: int| b <= i < s.len() implies is_white_space(#[trigger] s[i]) by {
            if i < s.len() - 1 {
                assert(s[i] == s.drop_last()[i]);
            }
        }
        b
    } else {
        assert(s.take(s.len() as int) =~= s);
        s.len() as int
    }
}

/// The views of a list of string slices.
pub open spec fn views_of(v: Seq<&str>) -> Seq<Seq<char>> {
    v.map_values(|p: &str| p@)
}

/// The pieces of `s` between occurrences of `sep`.
pub fn split_at_char<'a>(s: &'a str, sep: char) -> (parts: Vec<&'a str>)
    ensures
        views_of(parts@) == split(s@, sep),
{
    let n = s.unicode_len();
    let mut parts: Vec<&'a str> = Vec::new();
    let mut start: usize = 0;
    let mut i: usize = 0;
    proof {
        assert(s@.take(0) =~= Seq::<char>::empty());
        assert(views_of(parts@) =~= split(s@.take(0), sep).drop_last());
    }
    while i < n
        invariant
            n == s@.len(),
            start <= i <= n,
            views_of(parts@) == split(s@.take(i as int), sep).drop_last(),
            split(s@.take(i as int), sep).last() == s@.subrange(start as int, i as int),
        decreases n - i,
    {
        let ghost before = split(s@.take(i as int), sep);
        proof {
            lemma_split_nonempty(s@.take(i as int), sep);
            assert(s@.take(i + 1).drop_last() =~= s@.take(i as int));
            assert(s@.take(i + 1).last() == s@[i as int]);
        }
        if s.get_char(i) == sep {
            let piece = s.substring_char(start, i);
            let ghost parts0 = parts@;
            parts.push(piece);
            start = i + 1;
            proof {
                assert(views_of(parts@) =~= views_of(parts0).push(piece@));
                assert(before =~= before.drop_last().push(before.last()));
                assert(split(s@.take(i + 1), sep) =~= before.push(Seq::empty()));
                assert(views_of(parts@) =~= before);
                assert(split(s@.take(i + 1), sep).drop_last() =~= before);
                assert(s@.subrange(start as int, i + 1) =~= Seq::<char>::empty());
            }
        } else {
            proof {
                assert(split(s@.take(i + 1), sep) =~= before.update(before.len() - 1, before.last().push(s@[i as int])));
                assert(split(s@.take(i + 1), sep).drop_last() =~= before.drop_last());
                assert(s@.subrange(start as int, i + 1) =~= s@.subrange(start as int, i as int).push(s@[i as int]));
            }
        }
        i = i + 1;
    }
    let last = s.substring_char(start, n);
    let ghost before_parts = parts@;
    parts.push(last);
    proof {
        lemma_split_nonempty(s@, sep);
        assert(s@.take(n as int) =~= s@);
        assert(views_of(parts@) =~= views_of(before_parts).push(last@));
        assert(split(s@, sep) =~= split(s@, sep).drop_last().push(split(s@, sep).last()));
    }
    parts
}

/// `c` occurs in `s`.
pub fn has_char(s: &str, c: char) -> (r: bool)
    ensures
        r == s@.contains(c),
{
    let n = s.unicode_len();
    let mut i: usize = 0;
    while i < n
        invariant
            n == s@.len(),
            i <= n,
            forall|j: int| 0 <= j < i ==> s@[j] != c,
        decreases n - i,
    {
        if s.get_char(i) == c {
            return true;
        }
        i = i + 1;
    }
    false
}

/// The characters of `s`.
pub fn chars_of(s: &str) -> (v: Vec<char>)
    ensures
        v@ == s@,
{
    let n = s.unicode_len();
    let mut v: Vec<char> = Vec::new();
    let mut i: usize = 0;
    while i < n
        invariant
            n == s@.len(),
            i <= n,
            v@ == s@.take(i as int),
        decreases n - i,
    {
        v.push(s.get_char(i));
        proof {
            assert(s@.take(i + 1) =~= s@.take(i as int).push(s@[i as int]));
        }
        i = i + 1;
    }
    proof {
        assert(s@.take(n as int) =~= s@);
    }
    v
}

/// The decimal digit for `d` (0 to 9).
pub open spec fn digit_char(d: nat) -> char {
    (48 + d) as char
}

/// The decimal digits of `n`, most significant first, without leading zeros.
pub open spec fn digits(n: nat) -> Seq<char>
    decreases n,
{
    if n < 10 {
        seq![digit_char(n)]
    } else {
        digits(n / 10).push(digit_char(n % 10))
    }
}

/// `v` written in decimal, with a leading `-` when negative.
pub open spec fn decimal(v: int) -> Seq<char> {
    if v < 0 {
        seq!['-'] + digits((-v) as nat)
    } else {
        digits(v as nat)
    }
}

/// The number a string of decimal digits reads as.
pub open spec fn digits_value(s: Seq<char>) -> int
    decreases s.len(),
{
    if s.len() == 0 {
        0
    } else {
        digits_value(s.drop_last()) * 10 + (s.last() as int - 48)
    }
}

/// The decimal digits of `n` are digits `0` to `9`, read back as `n`, and
/// have no leading zero.
pub proof fn law_digits_read_back(n: nat)
    ensures
        digits_value(digits(n)) == n,
        forall|i: int| 0 <= i < digits(n).len() ==> '0' <= #[trigger] digits(n)[i] <= '9',
        digits(n).len() > 1 ==> digits(n)[0] != '0',
    decreases n,
{
    if n >= 10 {
        let q = (n / 10) as nat;
        law_digits_read_back(q);
        let d = digits(n);
        assert(d == digits(q).push(digit_char((n % 10) as nat)));
        assert(d.drop_last() =~= digits(q));
        assert(digit_char((n % 10) as nat) as int == 48 + n % 10);
        assert(q * 10 + n % 10 == n) by (nonlinear_arith)
            requires q == n / 10;
        assert(d.last() == digit_char((n % 10) as nat));
        assert(digits_value(d) == digits_value(digits(q)) * 10 + (d.last() as int - 48));
        assert forall|i: int| 0 <= i < d.len() implies '0' <= #[trigger] d[i] <= '9' by {
            if i < d.len() - 1 {
                assert(d[i] == digits(q)[i]);
            }
        }
        if digits(q).len() == 1 {
            assert(q < 10) by {
                if q >= 10 {
                    lemma_digits_len(q);
                }
            }
            assert(digits(q)[0] == digit_char(q));
            assert(q >= 1);
        }
        assert(d[0] == digits(q)[0]);
    } else {
        assert(digits(n).drop_last() =~= Seq::<char>::empty());
        assert(digit_char(n) as int == 48 + n);
        assert(digits(n).last() == digit_char(n));
        assert(digits_value(digits(n)) == digits_value(Seq::<char>::empty()) * 10 + (digit_char(n) as int - 48));
    }
}

/// A number of two digits or more has more than one digit.
proof fn lemma_digits_len(n: nat)
    ensures
        n >= 10 ==> digits(n).len() >= 2,
        digits(n).len() >= 1,
    decreases n,
{
    if n >= 10 {
        lemma_digits_len((n / 10) as nat);
    }
}

/// A negative number reads as `-` and the digits of its magnitude.
pub proof fn law_decimal_sign(v: int)
    ensures
        v < 0 ==> decimal(v)[0] == '-' && decimal(v).drop_first() == digits((-v) as nat),
        v >= 0 ==> decimal(v) == digits(v as nat) && !decimal(v).contains('-'),
{
    if v >= 0 {
        law_digits_read_back(v as nat);
        if decimal(v).contains('-') {
            let i = choose|i: int| 0 <= i < decimal(v).len() && decimal(v)[i] == '-';
            assert('0' <= digits(v as nat)[i]);
        }
    } else {
        assert((seq!['-'] + digits((-v) as nat)).drop_first() =~= digits((-v) as nat));
    }
}

/// The one-character string of decimal digit `d`.
fn digit_str(d: u64) -> (r: &'static str)
    requires
        d < 10,
    ensures
        r@ == seq![digit_char(d as nat)],
{
    proof {
        reveal_strlit("0");
        reveal_strlit("1");
        reveal_strlit("2");
        reveal_strlit("3");
        reveal_strlit("4");
        reveal_strlit("5");
        reveal_strlit("6");
        reveal_strlit("7");
        reveal_strlit("8");
        reveal_strlit("9");
    }
    match d {
        0 => "0",
        1 => "1",
        2 => "2",
        3 => "3",
        4 => "4",
        5 => "5",
        6 => "6",
        7 => "7",
        8 => "8",
        _ => "9",
    }
}

/// Appends the decimal digits of `n` to `out`.
fn append_digits(out: &mut String, n: u64)
    ensures
        final(out)@ == old(out)@ + digits(n as nat),
    decreases n,
{
    if n >= 10 {
        append_digits(out, n / 10);
    }
    out.append(digit_str(n % 10));
    proof {
        if n >= 10 {
            assert(digits(n as nat) == digits((n / 10) as nat).push(digit_char((n % 10) as nat)));
        } else {
            assert(n % 10 == n);
        }
        assert(final(out)@ =~= old(out)@ + digits(n as nat));
    }
}

/// `v` written in decimal, as `i64::to_string` writes it.
pub(crate) fn decimal_text(v: i64) -> (r: String)
    ensures
        r@ == decimal(v as int),
{
    let mut out = String::new();
    if v < 0 {
        out.append("-");
        let magnitude: u64 = (-(v as i128)) as u64;
        append_digits(&mut out, magnitude);
        proof {
            reveal_strlit("-");
            assert(out@ =~= seq!['-'] + digits((-v) as nat));
        }
    } else {
        append_digits(&mut out, v as u64);
        proof {
            assert(out@ =~= digits(v as nat));
        }
    }
    out
}

} // verus!
