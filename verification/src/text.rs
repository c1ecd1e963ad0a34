//! Text helpers. Strings are modelled as sequences of characters.

use vstd::prelude::*;
use vstd::std_specs::iter::IteratorSpec;

verus! {

/// `p` stands at the start of `s`.
pub open spec fn is_prefix(p: Seq<char>, s: Seq<char>) -> bool {
    p.len() <= s.len() && s.take(p.len() as int) == p
}

/// `s` without the prefix `p`, where it starts with `p`.
pub open spec fn strip_prefix_spec(s: Seq<char>, p: Seq<char>) -> Option<Seq<char>> {
    if is_prefix(p, s) {
        Some(s.skip(p.len() as int))
    } else {
        None
    }
}

/// `p` occurs somewhere in `s`.
pub open spec fn contains_spec(s: Seq<char>, p: Seq<char>) -> bool
    decreases s.len(),
{
    if is_prefix(p, s) {
        true
    } else if s.len() == 0 {
        false
    } else {
        contains_spec(s.drop_first(), p)
    }
}

/// Every non-overlapping occurrence of `from` in `s`, taken from the left,
/// replaced by `to`. An empty `from` matches before every character and at the
/// end.
pub open spec fn replace_spec(s: Seq<char>, from: Seq<char>, to: Seq<char>) -> Seq<char>
    decreases s.len(),
{
    if from.len() == 0 {
        if s.len() == 0 {
            to
        } else {
            to + seq![s[0]] + replace_spec(s.drop_first(), from, to)
        }
    } else if is_prefix(from, s) {
        to + replace_spec(s.skip(from.len() as int), from, to)
    } else if s.len() == 0 {
        s
    } else {
        seq![s[0]] + replace_spec(s.drop_first(), from, to)
    }
}

/// Piece number `n` of `s` cut at every occurrence of a non-empty `sep`.
pub open spec fn split_piece(s: Seq<char>, sep: Seq<char>, n: nat) -> Option<Seq<char>>
    decreases s.len(),
{
    if sep.len() > 0 && is_prefix(sep, s) {
        if n == 0 {
            Some(Seq::empty())
        } else {
            split_piece(s.skip(sep.len() as int), sep, (n - 1) as nat)
        }
    } else if s.len() == 0 {
        if n == 0 {
            Some(Seq::empty())
        } else {
            None
        }
    } else {
        match split_piece(s.drop_first(), sep, n) {
            Some(piece) => if n == 0 {
                Some(seq![s[0]] + piece)
            } else {
                Some(piece)
            },
            None => None,
        }
    }
}

/// Piece number `n` of `s` cut at every occurrence of `sep`. An empty `sep`
/// cuts before every character and at the end, so the pieces are an empty one,
/// each character, and an empty one.
pub open spec fn split_nth_spec(s: Seq<char>, sep: Seq<char>, n: nat) -> Option<Seq<char>> {
    if sep.len() > 0 {
        split_piece(s, sep, n)
    } else if n == 0 || n == s.len() + 1 {
        Some(Seq::empty())
    } else if n <= s.len() {
        Some(seq![s[n - 1]])
    } else {
        None
    }
}

/// The parts with `sep` between each two neighbours.
pub open spec fn join_spec(parts: Seq<Seq<char>>, sep: Seq<char>) -> Seq<char>
    decreases parts.len(),
{
    if parts.len() == 0 {
        Seq::empty()
    } else if parts.len() == 1 {
        parts[0]
    } else {
        join_spec(parts.drop_last(), sep) + sep + parts.last()
    }
}

/// `a` comes strictly before `b` in the order of their code points.
pub open spec fn lex_lt(a: Seq<char>, b: Seq<char>) -> bool
    decreases a.len(),
{
    if b.len() == 0 {
        false
    } else if a.len() == 0 {
        true
    } else if a[0] != b[0] {
        (a[0] as u32) < (b[0] as u32)
    } else {
        lex_lt(a.drop_first(), b.drop_first())
    }
}

pub open spec fn is_digit(c: char) -> bool {
    '0' <= c <= '9'
}

/// A letter, a digit or an underscore, of ASCII.
pub open spec fn is_word_char(c: char) -> bool {
    ('a' <= c <= 'z') || ('A' <= c <= 'Z') || is_digit(c) || c == '_'
}

pub open spec fn digit_char(d: nat) -> char
    recommends
        d < 10,
{
    if d == 0 {
        '0'
    } else if d == 1 {
        '1'
    } else if d == 2 {
        '2'
    } else if d == 3 {
        '3'
    } else if d == 4 {
        '4'
    } else if d == 5 {
        '5'
    } else if d == 6 {
        '6'
    } else if d == 7 {
        '7'
    } else if d == 8 {
        '8'
    } else {
        '9'
    }
}

pub open spec fn digit_value(c: char) -> nat
    recommends
        is_digit(c),
{
    (c as u32 - '0' as u32) as nat
}

/// `n` in decimal, without leading zeros.
pub open spec fn decimal(n: nat) -> Seq<char>
    decreases n,
{
    if n < 10 {
        seq![digit_char(n)]
    } else {
        decimal(n / 10).push(digit_char(n % 10))
    }
}

pub open spec fn all_digits(s: Seq<char>) -> bool {
    forall|i: int| 0 <= i < s.len() ==> is_digit(#[trigger] s[i])
}

/// The number that a run of digits denotes; 0 for the empty run.
pub open spec fn digits_value(s: Seq<char>) -> nat
    decreases s.len(),
{
    if s.len() == 0 {
        0
    } else {
        digits_value(s.drop_last()) * 10 + digit_value(s.last())
    }
}

/// The letters `A` to `Z` turned into `a` to `z`.
pub open spec fn lower_char(c: char) -> char {
    if 'A' <= c <= 'Z' {
        ((c as u32 + 32) as u8) as char
    } else {
        c
    }
}

pub open spec fn lower_ascii(s: Seq<char>) -> Seq<char> {
    Seq::new(s.len(), |i: int| lower_char(s[i]))
}

/// The characters of a string.
pub fn chars_of(s: &str) -> (v: Vec<char>)
    ensures
        v@ == s@,
{
    broadcast use vstd::string::group_string_axioms;

    let mut v: Vec<char> = Vec::new();
    let mut it = s.chars();
    loop
        invariant
            it.obeys_prophetic_iter_laws(),
            it.decrease() is Some,
            v@ + it.remaining() == s@,
        ensures
            v@ == s@,
        decreases it.decrease()->0,
    {
        match it.next() {
            Some(c) => {
                v.push(c);
            },
            None => {
                break ;
            },
        }
    }
    v
}

/// Collects characters into a `String` (`String::from_iter`): the string holds
/// exactly these characters, in this order.
#[verifier::external_body]
pub(crate) fn string_of(chars: &Vec<char>) -> (s: String)
    ensures
        s@ == chars@,
{
    String::from_iter(chars.iter())
}

/// Whether `p` stands in `s` at position `at`.
pub fn matches_at(s: &Vec<char>, at: usize, p: &Vec<char>) -> (r: bool)
    requires
        at <= s.len(),
    ensures
        r == is_prefix(p@, s@.skip(at as int)),
{
    if p.len() > s.len() - at {
        return false;
    }
    let mut k: usize = 0;
    while k < p.len()
        invariant
            at <= s.len(),
            p.len() <= s.len() - at,
            k <= p.len(),
            forall|j: int| 0 <= j < k ==> s@[at + j] == p@[j],
        decreases p.len() - k,
    {
        if s[at + k] != p[k] {
            proof {
                let t = s@.skip(at as int).take(p.len() as int);
                assert(t[k as int] == s@[at + k]);
            }
            return false;
        }
        k += 1;
    }
    proof {
        assert(s@.skip(at as int).take(p.len() as int) =~= p@);
    }
    true
}

/// Whether two strings hold the same characters.
pub fn str_eq(a: &str, b: &str) -> (r: bool)
    ensures
        r == (a@ == b@),
{
    let x = chars_of(a);
    let y = chars_of(b);
    if x.len() != y.len() {
        return false;
    }
    let r = matches_at(&x, 0, &y);
    proof {
        assert(x@.skip(0) =~= x@);
        assert(x@.take(y.len() as int) =~= x@);
    }
    r
}

/// Whether `s` starts with `p`.
pub fn starts_with(s: &str, p: &str) -> (r: bool)
    ensures
        r == is_prefix(p@, s@),
{
    let x = chars_of(s);
    let y = chars_of(p);
    proof {
        assert(x@.skip(0) =~= x@);
    }
    matches_at(&x, 0, &y)
}


/// `s` without the prefix `p`, or `None` where `s` does not start with `p`.
pub fn strip_prefix(s: &str, p: &str) -> (r: Option<String>)
    ensures
        r.is_some() == is_prefix(p@, s@),
        r matches Some(rest) ==> rest@ == s@.skip(p@.len() as int),
{
    let x = chars_of(s);
    let y = chars_of(p);
    proof {
        assert(x@.skip(0) =~= x@);
    }
    if matches_at(&x, 0, &y) {
        let mut rest: Vec<char> = Vec::new();
        let mut i: usize = y.len();
        while i < x.len()
            invariant
                y.len() <= i <= x.len(),
                rest@ == x@.subrange(y.len() as int, i as int),
            decreases x.len() - i,
        {
            rest.push(x[i]);
            i += 1;
            proof {
                assert(rest@ =~= x@.subrange(y.len() as int, i as int));
            }
        }
        proof {
            assert(rest@ =~= x@.skip(y.len() as int));
        }
        Some(string_of(&rest))
    } else {
        None
    }
}

/// Whether `p` occurs in `s`.
pub fn contains(s: &str, p: &str) -> (r: bool)
    ensures
        r == contains_spec(s@, p@),
{
    let x = chars_of(s);
    let y = chars_of(p);
    let mut i: usize = 0;
    proof {
        assert(x@.skip(0) =~= x@);
    }
    loop
        invariant
            i <= x.len(),
            x@ == s@,
            y@ == p@,
            contains_spec(x@, y@) == contains_spec(x@.skip(i as int), y@),
        decreases x.len() - i,
    {
        if matches_at(&x, i, &y) {
            return true;
        }
        if i == x.len() {
            return false;
        }
        proof {
            assert(x@.skip(i as int).drop_first() =~= x@.skip(i + 1));
        }
        i += 1;
    }
}

/// Every occurrence of `from` in `s` replaced by `to`.
pub fn replace(s: &str, from: &str, to: &str) -> (r: String)
    ensures
        r@ == replace_spec(s@, from@, to@),
{
    let x = chars_of(s);
    let f = chars_of(from);
    let t = chars_of(to);
    let mut out: Vec<char> = Vec::new();
    let mut i: usize = 0;
    proof {
        assert(x@.skip(0) =~= x@);
    }
    while i < x.len()
        invariant
            i <= x.len(),
            out@ + replace_spec(x@.skip(i as int), f@, t@) == replace_spec(x@, f@, t@),
        decreases x.len() - i,
    {
        let ghost before = out@;
        let ghost rest = x@.skip(i as int);
        if f.len() == 0 {
            extend(&mut out, &t);
            out.push(x[i]);
            proof {
                assert(rest.drop_first() =~= x@.skip(i + 1));
                assert(out@ + replace_spec(x@.skip(i + 1), f@, t@) =~= before + (t@ + seq![rest[0]]
                    + replace_spec(rest.drop_first(), f@, t@)));
            }
            i += 1;
        } else if matches_at(&x, i, &f) {
            extend(&mut out, &t);
            proof {
                assert(rest.skip(f.len() as int) =~= x@.skip(i + f.len()));
                assert(out@ + replace_spec(x@.skip(i + f.len()), f@, t@) =~= before + (t@
                    + replace_spec(rest.skip(f.len() as int), f@, t@)));
            }
            i += f.len();
        } else {
            out.push(x[i]);
            proof {
                assert(rest.drop_first() =~= x@.skip(i + 1));
                assert(out@ + replace_spec(x@.skip(i + 1), f@, t@) =~= before + (seq![rest[0]]
                    + replace_spec(rest.drop_first(), f@, t@)));
            }
            i += 1;
        }
    }
    proof {
        assert(x@.skip(i as int) =~= Seq::<char>::empty());
    }
    if f.len() == 0 {
        extend(&mut out, &t);
    } else {
        proof {
            assert(out@ + Seq::<char>::empty() =~= out@);
        }
    }
    string_of(&out)
}

/// Appends the characters of `more` to `out`.
pub fn extend(out: &mut Vec<char>, more: &Vec<char>)
    ensures
        final(out)@ == old(out)@ + more@,
{
    let mut k: usize = 0;
    while k < more.len()
        invariant
            k <= more.len(),
            out@ == old(out)@ + more@.take(k as int),
        decreases more.len() - k,
    {
        out.push(more[k]);
        k += 1;
        proof {
            assert(out@ =~= old(out)@ + more@.take(k as int));
        }
    }
    proof {
        assert(more@.take(k as int) =~= more@);
    }
}

/// Two strings, one after the other.
pub fn concat_str(a: &str, b: &str) -> (r: String)
    ensures
        r@ == a@ + b@,
{
    let mut out = chars_of(a);
    let y = chars_of(b);
    extend(&mut out, &y);
    string_of(&out)
}

/// Piece number `n` of `s` cut at every occurrence of `sep`, or `None` where
/// there are fewer pieces.
pub fn split_nth(s: &str, sep: &str, n: usize) -> (r: Option<String>)
    ensures
        r.is_some() == split_nth_spec(s@, sep@, n as nat).is_some(),
        r matches Some(piece) ==> split_nth_spec(s@, sep@, n as nat) == Some(piece@),
{
    let x = chars_of(s);
    let p = chars_of(sep);
    let mut piece: Vec<char> = Vec::new();
    if p.len() == 0 {
        if n == 0 || n - 1 == x.len() {
            return Some(string_of(&piece));
        } else if n <= x.len() {
            piece.push(x[n - 1]);
            proof {
                assert(piece@ =~= seq![x@[n - 1]]);
            }
            return Some(string_of(&piece));
        } else {
            return None;
        }
    }
    let mut i: usize = 0;
    let mut m: usize = n;
    proof {
        assert(x@.skip(0) =~= x@);
    }
    loop
        invariant
            i <= x.len(),
            x@ == s@,
            p@ == sep@,
            p.len() > 0,
            m > 0 ==> piece@.len() == 0,
            split_piece(x@, p@, n as nat) == match split_piece(x@.skip(i as int), p@, m as nat) {
                Some(rest) => Some(piece@ + rest),
                None => None,
            },
        decreases x.len() - i,
    {
        let ghost rest = x@.skip(i as int);
        if matches_at(&x, i, &p) {
            if m == 0 {
                proof {
                    assert(piece@ + Seq::<char>::empty() =~= piece@);
                }
                return Some(string_of(&piece));
            }
            proof {
                assert(rest.skip(p.len() as int) =~= x@.skip(i + p.len()));
                let tail = split_piece(x@.skip(i + p.len()), p@, (m - 1) as nat);
                if tail is Some {
                    assert(piece@ + tail->0 =~= tail->0);
                }
            }
            m -= 1;
            i += p.len();
        } else if i == x.len() {
            if m == 0 {
                proof {
                    assert(piece@ + Seq::<char>::empty() =~= piece@);
                }
                return Some(string_of(&piece));
            }
            return None;
        } else {
            proof {
                assert(rest.drop_first() =~= x@.skip(i + 1));
                let tail = split_piece(x@.skip(i + 1), p@, m as nat);
                if tail is Some {
                    if m == 0 {
                        assert(piece@.push(x@[i as int]) + tail->0 =~= piece@ + (seq![rest[0]]
                            + tail->0));
                    } else {
                        assert(piece@ + tail->0 =~= tail->0);
                    }
                }
            }
            if m == 0 {
                piece.push(x[i]);
            }
            i += 1;
        }
    }
}

/// The parts with `sep` between each two neighbours.
pub fn join(parts: &Vec<String>, sep: &str) -> (r: String)
    ensures
        r@ == join_spec(parts.deep_view(), sep@),
{
    let mut out: Vec<char> = Vec::new();
    let p = chars_of(sep);
    let mut i: usize = 0;
    while i < parts.len()
        invariant
            i <= parts.len(),
            p@ == sep@,
            out@ == join_spec(parts.deep_view().take(i as int), sep@),
        decreases parts.len() - i,
    {
        let part = chars_of(parts[i].as_str());
        proof {
            let now = parts.deep_view().take(i + 1);
            assert(now.drop_last() =~= parts.deep_view().take(i as int));
            assert(now.last() == part@);
            if i == 0 {
                assert(Seq::<char>::empty() + part@ =~= part@);
            }
        }
        if i > 0 {
            extend(&mut out, &p);
        }
        extend(&mut out, &part);
        i += 1;
    }
    proof {
        assert(parts.deep_view().take(i as int) =~= parts.deep_view());
    }
    string_of(&out)
}


/// The decimal digit for `d`.
fn digit_of(d: usize) -> (c: char)
    requires
        d < 10,
    ensures
        c == digit_char(d as nat),
        is_digit(c),
        digit_value(c) == d,
{
    if d == 0 {
        '0'
    } else if d == 1 {
        '1'
    } else if d == 2 {
        '2'
    } else if d == 3 {
        '3'
    } else if d == 4 {
        '4'
    } else if d == 5 {
        '5'
    } else if d == 6 {
        '6'
    } else if d == 7 {
        '7'
    } else if d == 8 {
        '8'
    } else {
        '9'
    }
}

/// The decimal digits of `n`.
pub fn decimal_chars(n: usize) -> (v: Vec<char>)
    ensures
        v@ == decimal(n as nat),
    decreases n,
{
    if n < 10 {
        let mut v: Vec<char> = Vec::new();
        v.push(digit_of(n));
        proof {
            assert(v@ =~= seq![digit_char(n as nat)]);
        }
        v
    } else {
        let mut v = decimal_chars(n / 10);
        v.push(digit_of(n % 10));
        v
    }
}

/// `n` in decimal.
pub fn decimal_string(n: usize) -> (r: String)
    ensures
        r@ == decimal(n as nat),
{
    let v = decimal_chars(n);
    string_of(&v)
}

/// A run of digits denotes at least what any of its prefixes denotes.
pub proof fn lemma_digits_value_grows(s: Seq<char>, k: int)
    requires
        0 <= k <= s.len(),
    ensures
        digits_value(s.take(k)) <= digits_value(s),
    decreases s.len(),
{
    if k == s.len() {
        assert(s.take(k) =~= s);
    } else {
        assert(s.drop_last().take(k) =~= s.take(k));
        lemma_digits_value_grows(s.drop_last(), k);
    }
}

/// A non-empty run of digits that denotes a number within `usize`.
pub open spec fn is_index_text(s: Seq<char>) -> bool {
    s.len() > 0 && all_digits(s) && digits_value(s) <= usize::MAX
}

/// The number a token denotes, where it is a non-empty run of digits that fits
/// `usize`; `None` for every other token.
pub fn parse_index(token: &Vec<char>) -> (r: Option<usize>)
    ensures
        r.is_some() == is_index_text(token@),
        r matches Some(n) ==> n == digits_value(token@),
{
    if token.len() == 0 {
        return None;
    }
    let mut acc: usize = 0;
    let mut i: usize = 0;
    while i < token.len()
        invariant
            i <= token.len(),
            all_digits(token@.take(i as int)),
            acc == digits_value(token@.take(i as int)),
        decreases token.len() - i,
    {
        let c = token[i];
        if !('0' <= c && c <= '9') {
            return None;
        }
        let d: usize = (c as u32 - '0' as u32) as usize;
        proof {
            let now = token@.take(i + 1);
            assert(now.drop_last() =~= token@.take(i as int));
            assert(now.last() == c);
            assert forall|j: int| 0 <= j < now.len() implies is_digit(#[trigger] now[j]) by {
                if j < i {
                    assert(now[j] == token@.take(i as int)[j]);
                }
            }
            lemma_digits_value_grows(token@, i + 1);
        }
        if acc > (usize::MAX - d) / 10 {
            return None;
        }
        acc = acc * 10 + d;
        i += 1;
    }
    proof {
        assert(token@.take(i as int) =~= token@);
    }
    Some(acc)
}

/// Reading back what [`decimal`] wrote gives the number again.
pub proof fn lemma_decimal_digits(n: nat)
    ensures
        decimal(n).len() > 0,
        all_digits(decimal(n)),
        digits_value(decimal(n)) == n,
    decreases n,
{
    if n < 10 {
        let s = decimal(n);
        assert(s.drop_last() =~= Seq::<char>::empty());
        assert(digits_value(s.drop_last()) == 0);
    } else {
        lemma_decimal_digits(n / 10);
        let s = decimal(n);
        assert(s.drop_last() =~= decimal(n / 10));
        assert(s.last() == digit_char(n % 10));
        assert forall|j: int| 0 <= j < s.len() implies is_digit(#[trigger] s[j]) by {
            if j < s.len() - 1 {
                assert(s[j] == decimal(n / 10)[j]);
            }
        }
    }
}

/// The string with `A` to `Z` turned into `a` to `z`.
pub fn to_lower_ascii(s: &str) -> (r: String)
    ensures
        r@ == lower_ascii(s@),
{
    let x = chars_of(s);
    let mut out: Vec<char> = Vec::new();
    let mut i: usize = 0;
    while i < x.len()
        invariant
            i <= x.len(),
            out@ == lower_ascii(x@.take(i as int)),
        decreases x.len() - i,
    {
        let c = x[i];
        let l = if 'A' <= c && c <= 'Z' {
            ((c as u32 + 32) as u8) as char
        } else {
            c
        };
        out.push(l);
        i += 1;
        proof {
            assert(out@ =~= lower_ascii(x@.take(i as int)));
        }
    }
    proof {
        assert(x@.take(i as int) =~= x@);
    }
    string_of(&out)
}

/// Whether `a` comes strictly before `b` in the order of their code points.
pub fn chars_lt(a: &Vec<char>, b: &Vec<char>) -> (r: bool)
    ensures
        r == lex_lt(a@, b@),
{
    let mut i: usize = 0;
    proof {
        assert(a@.skip(0) =~= a@);
        assert(b@.skip(0) =~= b@);
    }
    loop
        invariant
            i <= a.len(),
            i <= b.len(),
            lex_lt(a@, b@) == lex_lt(a@.skip(i as int), b@.skip(i as int)),
        decreases a.len() - i,
    {
        if i == b.len() {
            return false;
        }
        if i == a.len() {
            return true;
        }
        if a[i] != b[i] {
            return (a[i] as u32) < (b[i] as u32);
        }
        proof {
            assert(a@.skip(i as int).drop_first() =~= a@.skip(i + 1));
            assert(b@.skip(i as int).drop_first() =~= b@.skip(i + 1));
        }
        i += 1;
    }
}


/// Where `x` goes in an ascending `s`: before the first part that comes after
/// it.
pub open spec fn sorted_position(s: Seq<Seq<char>>, x: Seq<char>) -> int
    decreases s.len(),
{
    if s.len() == 0 || lex_lt(x, s[0]) {
        0
    } else {
        1 + sorted_position(s.drop_first(), x)
    }
}

/// The parts in ascending order of their code points.
pub open spec fn sort_spec(s: Seq<Seq<char>>) -> Seq<Seq<char>>
    decreases s.len(),
{
    if s.len() == 0 {
        s
    } else {
        let sorted = sort_spec(s.drop_last());
        sorted.insert(sorted_position(sorted, s.last()), s.last())
    }
}

pub proof fn lemma_sorted_position_bounds(s: Seq<Seq<char>>, x: Seq<char>)
    ensures
        0 <= sorted_position(s, x) <= s.len(),
    decreases s.len(),
{
    if !(s.len() == 0 || lex_lt(x, s[0])) {
        lemma_sorted_position_bounds(s.drop_first(), x);
    }
}

/// Sorting keeps the number of parts.
pub proof fn lemma_sort_len(s: Seq<Seq<char>>)
    ensures
        sort_spec(s).len() == s.len(),
    decreases s.len(),
{
    if s.len() > 0 {
        lemma_sort_len(s.drop_last());
        lemma_sorted_position_bounds(sort_spec(s.drop_last()), s.last());
    }
}

/// No part comes strictly before a part that stands earlier.
pub open spec fn ascending(s: Seq<Seq<char>>) -> bool {
    forall|i: int, j: int| 0 <= i < j < s.len() ==> !lex_lt(#[trigger] s[j], #[trigger] s[i])
}

/// No text comes strictly before itself.
pub proof fn lemma_lex_lt_irreflexive(a: Seq<char>)
    ensures
        !lex_lt(a, a),
    decreases a.len(),
{
    if a.len() > 0 {
        lemma_lex_lt_irreflexive(a.drop_first());
    }
}

/// The order of texts is transitive.
pub proof fn lemma_lex_lt_transitive(a: Seq<char>, b: Seq<char>, c: Seq<char>)
    requires
        lex_lt(a, b),
        lex_lt(b, c),
    ensures
        lex_lt(a, c),
    decreases a.len(),
{
    if a.len() > 0 && a[0] == b[0] && b[0] == c[0] {
        lemma_lex_lt_transitive(a.drop_first(), b.drop_first(), c.drop_first());
    }
}

/// Where a part goes: behind every part that does not come after it, and
/// before one that does.
pub proof fn lemma_sorted_position(s: Seq<Seq<char>>, x: Seq<char>)
    ensures
        0 <= sorted_position(s, x) <= s.len(),
        forall|i: int| 0 <= i < sorted_position(s, x) ==> !lex_lt(x, #[trigger] s[i]),
        sorted_position(s, x) < s.len() ==> lex_lt(x, s[sorted_position(s, x)]),
    decreases s.len(),
{
    if !(s.len() == 0 || lex_lt(x, s[0])) {
        let rest = s.drop_first();
        lemma_sorted_position(rest, x);
        let p = sorted_position(rest, x);
        assert forall|i: int| 0 <= i < 1 + p implies !lex_lt(x, #[trigger] s[i]) by {
            if i > 0 {
                assert(s[i] == rest[i - 1]);
            }
        }
        if 1 + p < s.len() {
            assert(s[1 + p] == rest[p]);
        }
    }
}

/// What [`sort_spec`] gives is in ascending order.
pub proof fn lemma_sort_ascending(s: Seq<Seq<char>>)
    ensures
        ascending(sort_spec(s)),
    decreases s.len(),
{
    if s.len() > 0 {
        let t = sort_spec(s.drop_last());
        let x = s.last();
        let p = sorted_position(t, x);
        lemma_sort_ascending(s.drop_last());
        lemma_sorted_position(t, x);
        let out = t.insert(p, x);
        assert forall|i: int, j: int| 0 <= i < j < out.len() implies !lex_lt(
            #[trigger] out[j],
            #[trigger] out[i],
        ) by {
            let from_i = if i < p { i } else { i - 1 };
            let from_j = if j < p { j } else { j - 1 };
            if i == p {
                assert(out[i] == x);
                assert(out[j] == t[from_j]);
                if lex_lt(t[from_j], x) {
                    lemma_lex_lt_transitive(t[from_j], x, t[p]);
                    lemma_lex_lt_irreflexive(t[p]);
                }
            } else if j == p {
                assert(out[j] == x);
                assert(out[i] == t[from_i]);
            } else {
                assert(out[i] == t[from_i]);
                assert(out[j] == t[from_j]);
            }
        }
    }
}

/// What [`sort_spec`] gives holds the same parts, each as often as before.
pub proof fn lemma_sort_permutes(s: Seq<Seq<char>>)
    ensures
        sort_spec(s).to_multiset() == s.to_multiset(),
    decreases s.len(),
{
    if s.len() > 0 {
        let t = sort_spec(s.drop_last());
        let x = s.last();
        lemma_sort_permutes(s.drop_last());
        lemma_sorted_position(t, x);
        vstd::seq_lib::to_multiset_insert(t, sorted_position(t, x), x);
        vstd::seq_lib::to_multiset_build(s.drop_last(), x);
        assert(s.drop_last().push(x) =~= s);
    }
}

/// The strings in ascending order of their code points.
pub fn sort_strings(parts: Vec<String>) -> (out: Vec<String>)
    ensures
        out.deep_view() == sort_spec(parts.deep_view()),
{
    let mut out: Vec<String> = Vec::new();
    let rest = parts;
    let ghost all = rest.deep_view();
    proof {
        assert(all.take(0) =~= Seq::<Seq<char>>::empty());
        assert(out.deep_view() =~= Seq::<Seq<char>>::empty());
    }
    let mut i: usize = 0;
    while i < rest.len()
        invariant
            i <= rest.len(),
            rest.deep_view() == all,
            out.deep_view() == sort_spec(all.take(i as int)),
        decreases rest.len() - i,
    {
        let x = rest[i].clone();
        let xc = chars_of(x.as_str());
        let ghost sorted = out.deep_view();
        let mut pos: usize = 0;
        proof {
            assert(sorted.skip(0) =~= sorted);
            lemma_sort_len(all.take(i as int));
        }
        loop
            invariant
                pos <= out.len(),
                sorted == out.deep_view(),
                xc@ == x@,
                sorted_position(sorted, x@) == pos + sorted_position(sorted.skip(pos as int), x@),
            ensures
                pos <= out.len(),
                sorted_position(sorted, x@) == pos,
            decreases out.len() - pos,
        {
            if pos == out.len() {
                break ;
            }
            let oc = chars_of(out[pos].as_str());
            proof {
                assert(sorted.skip(pos as int)[0] == oc@);
            }
            if chars_lt(&xc, &oc) {
                break ;
            }
            proof {
                assert(sorted.skip(pos as int).drop_first() =~= sorted.skip(pos + 1));
            }
            pos += 1;
        }
        proof {
            let now = all.take(i + 1);
            assert(now.drop_last() =~= all.take(i as int));
            assert(now.last() == x@);
        }
        out.insert(pos, x);
        proof {
            assert(out.deep_view() =~= sorted.insert(pos as int, xc@));
        }
        i += 1;
    }
    proof {
        assert(all.take(i as int) =~= all);
    }
    out
}


/// The pieces of `s` cut at every occurrence of a non-empty `sep`.
pub open spec fn split_all_spec(s: Seq<char>, sep: Seq<char>) -> Seq<Seq<char>>
    decreases s.len(),
{
    if s.len() == 0 {
        seq![Seq::empty()]
    } else if sep.len() > 0 && is_prefix(sep, s) {
        seq![Seq::empty()] + split_all_spec(s.skip(sep.len() as int), sep)
    } else {
        let rest = split_all_spec(s.drop_first(), sep);
        if rest.len() > 0 {
            rest.update(0, seq![s[0]] + rest[0])
        } else {
            rest
        }
    }
}

/// Cutting never leaves less than one piece.
pub proof fn lemma_split_all_nonempty(s: Seq<char>, sep: Seq<char>)
    ensures
        split_all_spec(s, sep).len() > 0,
    decreases s.len(),
{
    if s.len() == 0 {
    } else if sep.len() > 0 && is_prefix(sep, s) {
    } else {
        lemma_split_all_nonempty(s.drop_first(), sep);
    }
}

/// The pieces of `s` cut at every occurrence of `sep`.
pub fn split_all(s: &str, sep: &str) -> (pieces: Vec<String>)
    requires
        sep@.len() > 0,
    ensures
        pieces.deep_view() == split_all_spec(s@, sep@),
{
    let x = chars_of(s);
    let p = chars_of(sep);
    let mut pieces: Vec<String> = Vec::new();
    let mut piece: Vec<char> = Vec::new();
    let mut i: usize = 0;
    proof {
        assert(x@.skip(0) =~= x@);
        lemma_split_all_nonempty(x@, p@);
        let all = split_all_spec(x@, p@);
        assert(pieces.deep_view() + all.update(0, piece@ + all[0]) =~= all);
    }
    while i < x.len()
        invariant
            i <= x.len(),
            x@ == s@,
            p@ == sep@,
            p.len() > 0,
            split_all_spec(x@.skip(i as int), p@).len() > 0,
            pieces.deep_view() + split_all_spec(x@.skip(i as int), p@).update(
                0,
                piece@ + split_all_spec(x@.skip(i as int), p@)[0],
            ) == split_all_spec(x@, p@),
        decreases x.len() - i,
    {
        let ghost rest = x@.skip(i as int);
        let ghost done = pieces.deep_view();
        let ghost cur = piece@;
        if matches_at(&x, i, &p) {
            let ghost tail = split_all_spec(x@.skip(i + p.len()), p@);
            proof {
                assert(rest.skip(p.len() as int) =~= x@.skip(i + p.len()));
                lemma_split_all_nonempty(x@.skip(i + p.len()), p@);
                assert(cur + Seq::<char>::empty() =~= cur);
            }
            pieces.push(string_of(&piece));
            piece = Vec::new();
            proof {
                assert(pieces.deep_view() =~= done.push(cur));
                assert(Seq::<char>::empty() + tail[0] =~= tail[0]);
                assert(tail.update(0, piece@ + tail[0]) =~= tail);
                assert(pieces.deep_view() + tail =~= done + (seq![Seq::<char>::empty()]
                    + tail).update(0, cur + Seq::<char>::empty()));
            }
            i += p.len();
        } else {
            let ghost tail = split_all_spec(x@.skip(i + 1), p@);
            proof {
                assert(rest.drop_first() =~= x@.skip(i + 1));
                lemma_split_all_nonempty(x@.skip(i + 1), p@);
            }
            piece.push(x[i]);
            proof {
                assert(piece@ + tail[0] =~= cur + (seq![rest[0]] + tail[0]));
                assert(tail.update(0, piece@ + tail[0]) =~= tail.update(
                    0,
                    seq![rest[0]] + tail[0],
                ).update(0, cur + (seq![rest[0]] + tail[0])));
            }
            i += 1;
        }
    }
    proof {
        let last = split_all_spec(x@.skip(i as int), p@);
        assert(x@.skip(i as int) =~= Seq::<char>::empty());
        assert(last =~= seq![Seq::<char>::empty()]);
        assert(piece@ + Seq::<char>::empty() =~= piece@);
        assert(last.update(0, piece@ + last[0]) =~= seq![piece@]);
    }
    let ghost done = pieces.deep_view();
    pieces.push(string_of(&piece));
    proof {
        assert(pieces.deep_view() =~= done + seq![piece@]);
    }
    pieces
}

/// A copy of the strings.
pub fn clone_strings(v: &Vec<String>) -> (r: Vec<String>)
    ensures
        r.deep_view() == v.deep_view(),
{
    let mut r: Vec<String> = Vec::new();
    let mut i: usize = 0;
    while i < v.len()
        invariant
            i <= v.len(),
            r.deep_view() == v.deep_view().take(i as int),
        decreases v.len() - i,
    {
        let ghost before = r.deep_view();
        let item = v[i].clone();
        proof {
            assert(item@ == v.deep_view()[i as int]);
        }
        r.push(item);
        i += 1;
        proof {
            assert(r.deep_view() =~= before.push(v.deep_view()[i - 1]));
            assert(r.deep_view() =~= v.deep_view().take(i as int));
        }
    }
    proof {
        assert(v.deep_view().take(i as int) =~= v.deep_view());
    }
    r
}

} // verus!
