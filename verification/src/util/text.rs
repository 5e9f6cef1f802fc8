//! Building text: decimal numbers and concatenation.
use vstd::prelude::*;

verus! {

/// The decimal digit of a number smaller than ten.
pub open spec fn digit_char(d: nat) -> char {
    if d == 0 { '0' }
    else if d == 1 { '1' }
    else if d == 2 { '2' }
    else if d == 3 { '3' }
    else if d == 4 { '4' }
    else if d == 5 { '5' }
    else if d == 6 { '6' }
    else if d == 7 { '7' }
    else if d == 8 { '8' }
    else { '9' }
}

/// The decimal writing of a natural number, without leading zeros.
pub open spec fn decimal(n: nat) -> Seq<char>
    decreases n,
{
    if n < 10 {
        seq![digit_char(n)]
    } else {
        decimal(n / 10).push(digit_char(n % 10))
    }
}

fn digit_str(d: usize) -> (r: &'static str)
    requires
        d < 10,
    ensures
        r@ == seq![digit_char(d as nat)],
{
    proof {
        reveal_strlit("0");
        reveal_strlit("1");
        reveal_strlit("2");
        reveal_strlit("3");
        reveal_strlit("4");
        reveal_strlit("5");
        reveal_strlit("6");
        reveal_strlit("7");
        reveal_strlit("8");
        reveal_strlit("9");
    }
    if d == 0 {
        "0"
    } else if d == 1 {
        "1"
    } else if d == 2 {
        "2"
    } else if d == 3 {
        "3"
    } else if d == 4 {
        "4"
    } else if d == 5 {
        "5"
    } else if d == 6 {
        "6"
    } else if d == 7 {
        "7"
    } else if d == 8 {
        "8"
    } else {
        "9"
    }
}

/// Appends the decimal writing of `n` to `s`.
pub fn push_decimal(s: &mut String, n: usize)
    ensures
        final(s)@ == old(s)@ + decimal(n as nat),
    decreases n,
{
    if n < 10 {
        s.append(digit_str(n));
    } else {
        push_decimal(s, n / 10);
        s.append(digit_str(n % 10));
        assert(decimal(n as nat) == decimal((n / 10) as nat).push(digit_char((n % 10) as nat)));
    }
}

/// The decimal writing of `n`.
pub fn usize_to_string(n: usize) -> (r: String)
    ensures
        r@ == decimal(n as nat),
{
    let mut s = String::new();
    push_decimal(&mut s, n);
    s
}

/// The decimal writing of an integer, with a minus sign when it is negative.
pub open spec fn signed_decimal(n: int) -> Seq<char> {
    if n < 0 {
        seq!['-'] + decimal((-n) as nat)
    } else {
        decimal(n as nat)
    }
}

/// Appends the decimal writing of `n` to `s`.
pub fn push_signed_decimal(s: &mut String, n: i32)
    ensures
        final(s)@ == old(s)@ + signed_decimal(n as int),
{
    if n < 0 {
        proof {
            reveal_strlit("-");
        }
        s.append("-");
        let m: i64 = -(n as i64);
        push_decimal(s, m as usize);
        assert(final(s)@ =~= old(s)@ + signed_decimal(n as int));
    } else {
        push_decimal(s, n as usize);
    }
}

/// Appends `t` to `s`.
pub fn push_string(s: &mut String, t: &String)
    ensures
        final(s)@ == old(s)@ + t@,
{
    s.append(t.as_str());
}


/// The pieces of `s` between the occurrences of `sep`, empty ones included.
pub open spec fn pieces(s: Seq<char>, sep: char) -> Seq<Seq<char>>
    decreases s.len(),
{
    if s.len() == 0 {
        seq![Seq::empty()]
    } else {
        let p = pieces(s.drop_last(), sep);
        if s.last() == sep {
            p.push(Seq::empty())
        } else {
            p.update(p.len() - 1, p.last().push(s.last()))
        }
    }
}

/// The non-empty ones among the first `j` of `p`, in order.
pub open spec fn nonempty_upto(p: Seq<Seq<char>>, j: int) -> Seq<Seq<char>>
    decreases j,
{
    if j <= 0 || j > p.len() {
        Seq::empty()
    } else {
        let r = nonempty_upto(p, j - 1);
        if p[j - 1].len() > 0 {
            r.push(p[j - 1])
        } else {
            r
        }
    }
}

/// The non-empty pieces of `s` between the occurrences of `sep`.
pub open spec fn split_nonempty(s: Seq<char>, sep: char) -> Seq<Seq<char>> {
    nonempty_upto(pieces(s, sep), pieces(s, sep).len() as int)
}

/// The texts of a list of strings.
pub open spec fn texts(v: Seq<String>) -> Seq<Seq<char>> {
    v.map_values(|x: String| x@)
}

/// Splits `s` at each `sep`, keeping empty pieces; see `pieces`.
pub fn split_pieces(s: &str, sep: char) -> (r: Vec<String>)
    ensures
        texts(r@) == pieces(s@, sep),
{
    let n = s.unicode_len();
    let mut done: Vec<String> = Vec::new();
    let mut start: usize = 0;
    let mut i: usize = 0;
    proof {
        assert(s@.subrange(0, 0) =~= Seq::<char>::empty());
        assert(texts(done@).push(s@.subrange(0, 0)) =~= seq![Seq::<char>::empty()]);
    }
    while i < n
        invariant
            n == s@.len(),
            start <= i <= n,
            pieces(s@.subrange(0, i as int), sep) == texts(done@).push(s@.subrange(start as int, i as int)),
        decreases n - i,
    {
        let c = s.get_char(i);
        let ghost before = texts(done@);
        let ghost cur = s@.subrange(start as int, i as int);
        let ghost next = s@.subrange(0, i as int + 1);
        proof {
            assert(next.drop_last() =~= s@.subrange(0, i as int));
            assert(next.last() == c);
            assert(pieces(next, sep) == (if c == sep {
                pieces(s@.subrange(0, i as int), sep).push(Seq::empty())
            } else {
                let p = pieces(s@.subrange(0, i as int), sep);
                p.update(p.len() - 1, p.last().push(c))
            }));
        }
        if c == sep {
            let piece = String::from_str(s.substring_char(start, i));
            let ghost old_start = start;
            done.push(piece);
            start = i + 1;
            proof {
                assert(texts(done@) =~= before.push(s@.subrange(old_start as int, i as int)));
            }
        } else {
            proof {
                assert(s@.subrange(start as int, i as int).push(c) =~= s@.subrange(start as int, i as int + 1));
            }
        }
        i = i + 1;
        proof {
            if c == sep {
                assert(s@.subrange(start as int, i as int) =~= Seq::<char>::empty());
                assert(texts(done@).push(s@.subrange(start as int, i as int)) =~= before.push(cur).push(Seq::empty()));
            } else {
                assert(texts(done@).push(s@.subrange(start as int, i as int)) =~= before.push(cur).update(before.len() as int, cur.push(c)));
            }
        }
    }
    let last = String::from_str(s.substring_char(start, n));
    done.push(last);
    proof {
        assert(s@.subrange(0, n as int) =~= s@);
        assert(texts(done@) =~= pieces(s@, sep));
    }
    done
}

/// The non-empty pieces of `s` between the occurrences of `sep`; see `split_nonempty`.
pub fn split_nonempty_exec(s: &str, sep: char) -> (r: Vec<String>)
    ensures
        texts(r@) == split_nonempty(s@, sep),
{
    let all = split_pieces(s, sep);
    let mut r: Vec<String> = Vec::new();
    let mut j: usize = 0;
    while j < all.len()
        invariant
            j <= all@.len(),
            texts(all@) == pieces(s@, sep),
            texts(r@) == nonempty_upto(texts(all@), j as int),
        decreases all@.len() - j,
    {
        let ghost before = texts(r@);
        if all[j].unicode_len() > 0 {
            r.push(all[j].clone());
            assert(texts(r@) =~= before.push(texts(all@)[j as int]));
        }
        j = j + 1;
    }
    r
}


/// There is always at least one piece.
pub proof fn lemma_pieces_nonempty(s: Seq<char>, sep: char)
    ensures
        pieces(s, sep).len() >= 1,
    decreases s.len(),
{
    if s.len() > 0 {
        lemma_pieces_nonempty(s.drop_last(), sep);
    }
}

/// The decimal writing of a number is made of digits only, and is never empty.
pub proof fn lemma_decimal_digits(n: nat, c: char)
    requires
        !('0' <= c <= '9'),
    ensures
        !decimal(n).contains(c),
        decimal(n).len() >= 1,
    decreases n,
{
    if n >= 10 {
        lemma_decimal_digits(n / 10, c);
        let d = decimal(n / 10);
        assert forall|i: int| 0 <= i < decimal(n).len() implies decimal(n)[i] != c by {
            if i < d.len() {
                assert(decimal(n)[i] == d[i]);
            }
        }
    }
}

/// Two numbers with the same decimal writing are equal.
pub proof fn lemma_decimal_injective(n1: nat, n2: nat)
    requires
        decimal(n1) == decimal(n2),
    ensures
        n1 == n2,
    decreases n1,
{
    lemma_decimal_digits(n1, '#');
    lemma_decimal_digits(n2, '#');
    if n1 < 10 && n2 < 10 {
        assert(decimal(n1) == seq![digit_char(n1)]);
        assert(decimal(n2) == seq![digit_char(n2)]);
        assert(decimal(n1)[0] == decimal(n2)[0]);
        assert(seq![digit_char(n1)][0] == digit_char(n1));
        assert(seq![digit_char(n2)][0] == digit_char(n2));
        lemma_digit_injective(n1, n2);
    } else if n1 >= 10 && n2 >= 10 {
        lemma_decimal_digits(n1 / 10, '#');
        lemma_decimal_digits(n2 / 10, '#');
        assert(decimal(n1).last() == digit_char((n1 % 10) as nat));
        assert(decimal(n2).last() == digit_char((n2 % 10) as nat));
        assert(decimal(n1).last() == decimal(n2).last());
        assert(decimal(n1 / 10) == decimal(n1).drop_last());
        assert(decimal(n2 / 10) == decimal(n2).drop_last());
        lemma_decimal_injective(n1 / 10, n2 / 10);
        lemma_digit_injective((n1 % 10) as nat, (n2 % 10) as nat);
        assert(n1 == 10 * (n1 / 10) + n1 % 10);
        assert(n2 == 10 * (n2 / 10) + n2 % 10);
    } else if n1 >= 10 {
        lemma_decimal_digits(n1 / 10, '#');
        assert(decimal(n1).len() == decimal(n1 / 10).len() + 1);
    } else {
        lemma_decimal_digits(n2 / 10, '#');
        assert(decimal(n2).len() == decimal(n2 / 10).len() + 1);
    }
}

/// Different digits are written differently.
proof fn lemma_digit_injective(d1: nat, d2: nat)
    requires
        d1 < 10,
        d2 < 10,
        digit_char(d1) == digit_char(d2),
    ensures
        d1 == d2,
{
}

} // verus!
