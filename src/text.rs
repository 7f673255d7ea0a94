//! Text primitives shared by the parsers: splitting on a delimiter,
//! trimming, joining and decimal numbers, each stated over `Seq<char>`.

use vstd::prelude::*;
use vstd::string::*;

verus! {

/// Splits `s` at every occurrence of `d`, as `str::split` does: the result
/// always holds at least one piece, and an empty input gives one empty piece.
pub open spec fn split_on(s: Seq<char>, d: char) -> Seq<Seq<char>>
    decreases s.len(),
{
    if s.len() == 0 {
        seq![Seq::<char>::empty()]
    } else {
        let init = split_on(s.drop_last(), d);
        if s.last() == d {
            init.push(Seq::<char>::empty())
        } else {
            init.update(init.len() - 1, init.last().push(s.last()))
        }
    }
}

/// Splitting always gives at least one piece.
pub proof fn lemma_split_on_nonempty(s: Seq<char>, d: char)
    ensures
        split_on(s, d).len() >= 1,
    decreases s.len(),
{
    if s.len() > 0 {
        lemma_split_on_nonempty(s.drop_last(), d);
    }
}

/// The views of a vector of strings.
pub open spec fn views(v: Seq<String>) -> Seq<Seq<char>> {
    v.map_values(|x: String| x@)
}

/// Splits `s` at every `d`.
pub fn split_str(s: &str, d: char) -> (r: Vec<String>)
    ensures
        views(r@) == split_on(s@, d),
{
    let n = s.unicode_len();
    let mut pieces: Vec<String> = Vec::new();
    let mut start: usize = 0;
    let mut i: usize = 0;
    assert(views(pieces@) =~= Seq::<Seq<char>>::empty());
    assert(s@.take(0) =~= Seq::<char>::empty());
    assert(views(pieces@).push(s@.subrange(0, 0)) =~= split_on(s@.take(0), d));
    while i < n
        invariant
            n == s@.len(),
            start <= i <= n,
            views(pieces@).push(s@.subrange(start as int, i as int)) == split_on(
                s@.take(i as int),
                d,
            ),
        decreases n - i,
    {
        let c = s.get_char(i);
        proof {
            assert(s@.take(i + 1).drop_last() == s@.take(i as int));
            lemma_split_on_nonempty(s@.take(i as int), d);
        }
        let ghost prev = views(pieces@).push(s@.subrange(start as int, i as int));
        assert(split_on(s@.take(i + 1), d) == if c == d {
            prev.push(Seq::<char>::empty())
        } else {
            prev.update(prev.len() - 1, prev.last().push(c))
        });
        if c == d {
            let piece = s.substring_char(start, i).to_owned();
            assert(piece@ == s@.subrange(start as int, i as int));
            let ghost before = pieces@;
            pieces.push(piece);
            start = i + 1;
            assert(views(pieces@) =~= views(before).push(piece@));
            assert(s@.subrange(start as int, i + 1) =~= Seq::<char>::empty());
            assert(views(pieces@).push(s@.subrange(start as int, i + 1)) =~= prev.push(
                Seq::<char>::empty(),
            ));
        } else {
            assert(s@.subrange(start as int, i as int).push(c) =~= s@.subrange(
                start as int,
                i + 1,
            ));
            assert(views(pieces@).push(s@.subrange(start as int, i + 1)) =~= prev.update(
                prev.len() - 1,
                prev.last().push(c),
            ));
        }
        i = i + 1;
    }
    let last = s.substring_char(start, n).to_owned();
    pieces.push(last);
    assert(s@.take(n as int) =~= s@);
    assert(views(pieces@) =~= views(pieces@.drop_last()).push(last@));
    pieces
}


/// Optional whitespace around tokens: space, tab, carriage return, line feed.
pub open spec fn is_ows(c: char) -> bool {
    c == ' ' || c == '\t' || c == '\r' || c == '\n'
}

pub open spec fn trim_start(s: Seq<char>) -> Seq<char>
    decreases s.len(),
{
    if s.len() > 0 && is_ows(s[0]) {
        trim_start(s.drop_first())
    } else {
        s
    }
}

pub open spec fn trim_end(s: Seq<char>) -> Seq<char>
    decreases s.len(),
{
    if s.len() > 0 && is_ows(s.last()) {
        trim_end(s.drop_last())
    } else {
        s
    }
}

/// `s` without leading and trailing whitespace.
pub open spec fn trim(s: Seq<char>) -> Seq<char> {
    trim_end(trim_start(s))
}

/// Removes leading and trailing whitespace.
pub fn trim_str(s: &str) -> (r: String)
    ensures
        r@ == trim(s@),
{
    let n = s.unicode_len();
    let mut lo: usize = 0;
    assert(s@.subrange(0, n as int) =~= s@);
    while lo < n && is_ows_char(s.get_char(lo))
        invariant
            n == s@.len(),
            lo <= n,
            trim_start(s@.subrange(lo as int, n as int)) == trim_start(s@),
        decreases n - lo,
    {
        assert(s@.subrange(lo as int, n as int).drop_first() =~= s@.subrange(lo + 1, n as int));
        lo = lo + 1;
    }
    let mut hi: usize = n;
    assert(trim_start(s@) == s@.subrange(lo as int, n as int));
    while hi > lo && is_ows_char(s.get_char(hi - 1))
        invariant
            n == s@.len(),
            lo <= hi <= n,
            trim_end(s@.subrange(lo as int, hi as int)) == trim(s@),
        decreases hi,
    {
        assert(s@.subrange(lo as int, hi as int).drop_last() =~= s@.subrange(lo as int, hi - 1));
        hi = hi - 1;
    }
    s.substring_char(lo, hi).to_owned()
}

fn is_ows_char(c: char) -> (r: bool)
    ensures
        r == is_ows(c),
{
    c == ' ' || c == '\t' || c == '\r' || c == '\n'
}

/// Joins `ps` with `d` between consecutive pieces, as `[T]::join` does.
pub open spec fn join_with(ps: Seq<Seq<char>>, d: char) -> Seq<char>
    decreases ps.len(),
{
    if ps.len() == 0 {
        Seq::<char>::empty()
    } else if ps.len() == 1 {
        ps[0]
    } else {
        join_with(ps.drop_last(), d).push(d) + ps.last()
    }
}

/// Joins the pieces `ps[from..]` with `d` between them.
pub fn join_from(ps: &Vec<String>, from: usize, d: &str) -> (r: String)
    requires
        from <= ps@.len(),
        d@.len() == 1,
    ensures
        r@ == join_with(views(ps@).subrange(from as int, ps@.len() as int), d@[0]),
{
    let mut r = String::new();
    let mut i: usize = from;
    assert(views(ps@).subrange(from as int, from as int) =~= Seq::<Seq<char>>::empty());
    while i < ps.len()
        invariant
            from <= i <= ps@.len(),
            d@.len() == 1,
            r@ == join_with(views(ps@).subrange(from as int, i as int), d@[0]),
        decreases ps@.len() - i,
    {
        let ghost prev = views(ps@).subrange(from as int, i as int);
        let ghost next = views(ps@).subrange(from as int, i + 1);
        assert(next.drop_last() =~= prev);
        if i > from {
            r.append(d);
            assert(d@ =~= seq![d@[0]]);
        }
        r.append(ps[i].as_str());
        proof {
            if i == from {
                assert(r@ =~= next[0]);
            } else {
                assert(r@ =~= join_with(prev, d@[0]).push(d@[0]) + next.last());
            }
        }
        i = i + 1;
    }
    r
}


pub open spec fn is_digit(c: char) -> bool {
    '0' <= c && c <= '9'
}

pub open spec fn all_digits(s: Seq<char>) -> bool {
    forall|i: int| 0 <= i < s.len() ==> is_digit(#[trigger] s[i])
}

/// A non-empty run of ASCII digits.
pub open spec fn is_decimal(s: Seq<char>) -> bool {
    s.len() > 0 && all_digits(s)
}

/// The number that a run of digits spells in base ten.
pub open spec fn decimal_value(s: Seq<char>) -> nat
    decreases s.len(),
{
    if s.len() == 0 {
        0
    } else {
        decimal_value(s.drop_last()) * 10 + (s.last() as nat - '0' as nat) as nat
    }
}

proof fn lemma_decimal_prefix(s: Seq<char>, k: int)
    requires
        all_digits(s),
        0 <= k <= s.len(),
    ensures
        decimal_value(s.take(k)) <= decimal_value(s),
    decreases s.len(),
{
    if k < s.len() {
        assert(s.drop_last().take(k) =~= s.take(k));
        lemma_decimal_prefix(s.drop_last(), k);
    } else {
        assert(s.take(k) =~= s);
    }
}

/// Reads `s` as a decimal number that is at most `max`: `None` where `s` is
/// not a non-empty run of digits or spells a larger number.
pub fn parse_decimal(s: &str, max: u64) -> (r: Option<u64>)
    ensures
        r == (if is_decimal(s@) && decimal_value(s@) <= max {
            Some(decimal_value(s@) as u64)
        } else {
            None
        }),
{
    let n = s.unicode_len();
    if n == 0 {
        return None;
    }
    let mut v: u64 = 0;
    let mut i: usize = 0;
    while i < n
        invariant
            n == s@.len(),
            i <= n,
            all_digits(s@.take(i as int)),
            v == decimal_value(s@.take(i as int)),
            v <= max,
        decreases n - i,
    {
        let c = s.get_char(i);
        assert(s@.take(i + 1).drop_last() =~= s@.take(i as int));
        if !('0' <= c && c <= '9') {
            assert(!all_digits(s@));
            return None;
        }
        let dv = (c as u32 - '0' as u32) as u64;
        assert(all_digits(s@.take(i + 1)));
        if dv > max || v > (max - dv) / 10 {
            proof {
                assert(decimal_value(s@.take(i + 1)) > max) by (nonlinear_arith)
                    requires
                        decimal_value(s@.take(i + 1)) == v * 10 + dv,
                        dv > max || v > (max - dv) / 10,
                        dv <= 9,
                ;
                if all_digits(s@) {
                    lemma_decimal_prefix(s@, i + 1);
                }
            }
            return None;
        }
        assert(v * 10 + dv <= max) by (nonlinear_arith)
            requires
                v <= (max - dv) / 10,
                dv <= max,
        ;
        v = v * 10 + dv;
        i = i + 1;
    }
    assert(s@.take(n as int) =~= s@);
    Some(v)
}


pub open spec fn digit_char(d: nat) -> char {
    seq!['0', '1', '2', '3', '4', '5', '6', '7', '8', '9'][d as int]
}

/// The shortest decimal spelling of `n`.
pub open spec fn decimal_text(n: nat) -> Seq<char>
    decreases n,
{
    if n < 10 {
        seq![digit_char(n)]
    } else {
        decimal_text(n / 10).push(digit_char(n % 10))
    }
}

/// Spells `n` in decimal.
pub fn format_decimal(n: u64) -> (r: String)
    ensures
        r@ == decimal_text(n as nat),
    decreases n,
{
    let digits = "0123456789";
    proof {
        reveal_strlit("0123456789");
    }
    assert(digits@ =~= seq!['0', '1', '2', '3', '4', '5', '6', '7', '8', '9']);
    let d = (n % 10) as usize;
    let last = digits.substring_char(d, d + 1);
    assert(last@ =~= seq![digit_char((n % 10) as nat)]);
    if n < 10 {
        last.to_owned()
    } else {
        let mut r = format_decimal(n / 10);
        r.append(last);
        r
    }
}


/// Trims each piece.
pub open spec fn trim_all(ps: Seq<Seq<char>>) -> Seq<Seq<char>> {
    ps.map_values(|x: Seq<char>| trim(x))
}

/// Splits `s` at every `d` and trims each piece.
pub fn split_trim(s: &str, d: char) -> (r: Vec<String>)
    ensures
        views(r@) == trim_all(split_on(s@, d)),
        r@.len() >= 1,
{
    let pieces = split_str(s, d);
    proof {
        lemma_split_on_nonempty(s@, d);
    }
    let mut r: Vec<String> = Vec::new();
    let mut i: usize = 0;
    while i < pieces.len()
        invariant
            i <= pieces@.len(),
            views(pieces@) == split_on(s@, d),
            views(r@) == trim_all(views(pieces@).take(i as int)),
        decreases pieces@.len() - i,
    {
        let t = trim_str(pieces[i].as_str());
        let ghost before = r@;
        r.push(t);
        assert(views(r@) =~= trim_all(views(pieces@).take(i + 1))) by {
            assert(views(r@) =~= views(before).push(t@));
        }
        i = i + 1;
    }
    assert(views(pieces@).take(i as int) =~= views(pieces@));
    r
}

/// Whether `s` begins with `p`.
pub open spec fn has_prefix(s: Seq<char>, p: Seq<char>) -> bool {
    p.len() <= s.len() && s.take(p.len() as int) == p
}

/// Whether `s` begins with `p`.
pub fn starts_with(s: &str, p: &str) -> (r: bool)
    ensures
        r == has_prefix(s@, p@),
{
    let n = s.unicode_len();
    let m = p.unicode_len();
    if m > n {
        return false;
    }
    let mut i: usize = 0;
    while i < m
        invariant
            n == s@.len(),
            m == p@.len(),
            m <= n,
            i <= m,
            s@.take(i as int) == p@.take(i as int),
        decreases m - i,
    {
        if s.get_char(i) != p.get_char(i) {
            assert(s@.take(m as int)[i as int] != p@[i as int]);
            return false;
        }
        assert(s@.take(i + 1) =~= s@.take(i as int).push(s@[i as int]));
        assert(p@.take(i + 1) =~= p@.take(i as int).push(p@[i as int]));
        i = i + 1;
    }
    assert(p@.take(m as int) =~= p@);
    true
}

/// Whether `s` is exactly `p`.
pub fn same_text(s: &str, p: &str) -> (r: bool)
    ensures
        r == (s@ == p@),
{
    let b = s.unicode_len() == p.unicode_len() && starts_with(s, p);
    proof {
        if s@.len() == p@.len() {
            assert(s@.take(p@.len() as int) =~= s@);
        }
    }
    b
}


/// Whether `c` does not occur in `s`.
pub open spec fn free_of(s: Seq<char>, c: char) -> bool {
    forall|i: int| 0 <= i < s.len() ==> s[i] != c
}

/// A text without `d` is one piece.
pub proof fn lemma_split_whole(a: Seq<char>, d: char)
    requires
        free_of(a, d),
    ensures
        split_on(a, d) == seq![a],
    decreases a.len(),
{
    if a.len() > 0 {
        lemma_split_whole(a.drop_last(), d);
        assert(a.drop_last().push(a.last()) =~= a);
        assert(a.last() != d);
        assert(seq![a.drop_last()].update(0, a.drop_last().push(a.last())) =~= seq![a]);
    } else {
        assert(a =~= Seq::<char>::empty());
    }
}

/// Splitting `a + d + b`, where `a` holds no `d`, gives `a` and then the
/// pieces of `b`.
pub proof fn lemma_split_first(a: Seq<char>, d: char, b: Seq<char>)
    requires
        free_of(a, d),
    ensures
        split_on(a + seq![d] + b, d) == seq![a] + split_on(b, d),
    decreases b.len(),
{
    let s = a + seq![d] + b;
    if b.len() == 0 {
        assert(s.drop_last() =~= a);
        lemma_split_whole(a, d);
        assert(split_on(b, d) =~= seq![Seq::<char>::empty()]);
        assert(split_on(s, d) =~= seq![a] + split_on(b, d));
    } else {
        let b0 = b.drop_last();
        lemma_split_first(a, d, b0);
        assert(s.drop_last() =~= a + seq![d] + b0);
        lemma_split_on_nonempty(b0, d);
        let y = split_on(b0, d);
        if b.last() == d {
            assert(split_on(s, d) =~= seq![a] + y.push(Seq::<char>::empty()));
        } else {
            assert((seq![a] + y).update(y.len() as int, y.last().push(b.last())) =~= seq![a]
                + y.update(y.len() - 1, y.last().push(b.last())));
        }
    }
}

/// No character of `s` is whitespace.
pub open spec fn no_ows(s: Seq<char>) -> bool {
    forall|i: int| 0 <= i < s.len() ==> !is_ows(#[trigger] s[i])
}

/// A text without whitespace trims to itself.
pub proof fn lemma_trim_plain(s: Seq<char>)
    requires
        no_ows(s),
    ensures
        trim(s) == s,
{
    if s.len() > 0 {
        assert(!is_ows(s[0]));
        assert(!is_ows(s.last()));
    }
}

/// A trailing carriage return is trimmed off.
pub proof fn lemma_trim_cr(s: Seq<char>)
    requires
        no_ows(s),
    ensures
        trim(s.push('\r')) == s,
{
    let t = s.push('\r');
    if s.len() > 0 {
        assert(!is_ows(t[0]));
        assert(trim_start(t) == t);
        assert(t.drop_last() =~= s);
        assert(!is_ows(s.last()));
        assert(trim_end(t) == trim_end(s));
        assert(trim_end(s) == s);
    } else {
        assert(t.drop_first() =~= Seq::<char>::empty());
        assert(is_ows(t[0]));
        assert(trim_start(t) == trim_start(Seq::<char>::empty()));
        assert(trim_end(Seq::<char>::empty()) == Seq::<char>::empty());
        assert(s =~= Seq::<char>::empty());
    }
}


/// Splitting `a + d + b`, where `b` holds no `d`, gives the pieces of `a`
/// and then `b`.
pub proof fn lemma_split_last(a: Seq<char>, d: char, b: Seq<char>)
    requires
        free_of(b, d),
    ensures
        split_on(a + seq![d] + b, d) == split_on(a, d).push(b),
    decreases b.len(),
{
    let s = a + seq![d] + b;
    if b.len() == 0 {
        assert(s.drop_last() =~= a);
        assert(b =~= Seq::<char>::empty());
    } else {
        let b0 = b.drop_last();
        lemma_split_last(a, d, b0);
        assert(s.drop_last() =~= a + seq![d] + b0);
        assert(b0.push(b.last()) =~= b);
        assert(split_on(a, d).push(b0).update(split_on(a, d).len() as int, b) =~= split_on(a, d).push(b));
    }
}

/// Splitting pieces joined with `d`, none of which holds `d`, gives the
/// pieces back.
pub proof fn lemma_split_join(ps: Seq<Seq<char>>, d: char)
    requires
        ps.len() >= 1,
        forall|i: int| 0 <= i < ps.len() ==> free_of(#[trigger] ps[i], d),
    ensures
        split_on(join_with(ps, d), d) == ps,
    decreases ps.len(),
{
    if ps.len() == 1 {
        lemma_split_whole(ps[0], d);
        assert(seq![ps[0]] =~= ps);
    } else {
        let init = ps.drop_last();
        lemma_split_join(init, d);
        assert(free_of(ps.last(), d));
        assert(join_with(ps, d) =~= join_with(init, d) + seq![d] + ps.last());
        lemma_split_last(join_with(init, d), d, ps.last());
        assert(init.push(ps.last()) =~= ps);
    }
}


proof fn lemma_digit_char(d: nat)
    requires
        d < 10,
    ensures
        is_digit(digit_char(d)),
        digit_char(d) as nat - '0' as nat == d,
{
    let t = seq!['0', '1', '2', '3', '4', '5', '6', '7', '8', '9'];
    assert(t[0] == '0' && t[1] == '1' && t[2] == '2' && t[3] == '3' && t[4] == '4');
    assert(t[5] == '5' && t[6] == '6' && t[7] == '7' && t[8] == '8' && t[9] == '9');
}

/// The decimal spelling of `n` reads back as `n`.
pub proof fn lemma_decimal_round_trip(n: nat)
    ensures
        is_decimal(decimal_text(n)),
        decimal_value(decimal_text(n)) == n,
    decreases n,
{
    lemma_digit_char(n % 10);
    if n < 10 {
        let s = seq![digit_char(n)];
        assert(s.drop_last() =~= Seq::<char>::empty());
        assert(n % 10 == n);
        assert(s.last() == digit_char(n));
        assert(decimal_value(s) == decimal_value(s.drop_last()) * 10 + (digit_char(n) as nat
            - '0' as nat) as nat);
    } else {
        lemma_decimal_round_trip(n / 10);
        let s = decimal_text(n);
        assert(s.drop_last() =~= decimal_text(n / 10));
        assert(s.last() == digit_char(n % 10));
        vstd::arithmetic::div_mod::lemma_fundamental_div_mod(n as int, 10);
        assert(all_digits(s)) by {
            assert forall|i: int| 0 <= i < s.len() implies is_digit(#[trigger] s[i]) by {
                if i < s.len() - 1 {
                    assert(s[i] == decimal_text(n / 10)[i]);
                }
            }
        }
    }
}

/// Joining the pieces of `s` split on `d` with `d` gives `s` back.
pub proof fn lemma_join_split(s: Seq<char>, d: char)
    ensures
        join_with(split_on(s, d), d) == s,
    decreases s.len(),
{
    if s.len() > 0 {
        let init = s.drop_last();
        lemma_join_split(init, d);
        lemma_split_on_nonempty(init, d);
        let y = split_on(init, d);
        if s.last() == d {
            let w = y.push(Seq::<char>::empty());
            assert(w.drop_last() =~= y);
            assert(w.last() == Seq::<char>::empty());
            assert(join_with(w, d) =~= join_with(y, d).push(d));
        } else {
            let z = y.update(y.len() - 1, y.last().push(s.last()));
            assert(z.drop_last() =~= y.drop_last());
            if y.len() == 1 {
                assert(join_with(z, d) =~= init.push(s.last()));
            } else {
                assert(join_with(y, d) =~= join_with(y.drop_last(), d).push(d) + y.last());
                assert(join_with(z, d) =~= join_with(y.drop_last(), d).push(d) + y.last().push(
                    s.last(),
                ));
            }
        }
        assert(init.push(s.last()) =~= s);
    }
}

} // verus!
