//! Text building blocks: decimal numerals, substring tests and string
//! concatenation, each stated over the characters of the strings involved.

use vstd::prelude::*;

verus! {

/// `String::push` of the standard library appends one character at the end.
pub assume_specification[ String::push ](s: &mut String, ch: char)
    ensures
        final(s)@ == old(s)@.push(ch),
;

/// What `{:?}` prints for a string: the text in double quotes, with the
/// escapes that the standard library chooses.
pub uninterp spec fn str_debug(s: Seq<char>) -> Seq<char>;

/// `<str as Debug>::fmt` of the standard library, through `format!("{:?}", s)`.
/// The printed text is a function of the characters of `s`, named
/// [`str_debug`]; which characters are escaped, and how, is left unsaid.
#[verifier::external_body]
pub(crate) fn str_debug_text(s: &str) -> (r: String)
    ensures
        r@ == str_debug(s@),
{
    format!("{:?}", s)
}

/// The character of a decimal digit.
pub open spec fn digit_char(d: nat) -> char {
    (('0' as u32) + d) as char
}

/// The decimal numeral of `n`, without leading zeros.
pub open spec fn decimal(n: nat) -> Seq<char>
    decreases n,
{
    if n < 10 {
        seq![digit_char(n)]
    } else {
        decimal(n / 10).push(digit_char(n % 10))
    }
}

/// `part` occurs in `s` starting at position `at`.
pub open spec fn occurs_at(s: Seq<char>, part: Seq<char>, at: int) -> bool {
    0 <= at <= s.len() - part.len() && s.subrange(at, at + part.len()) == part
}

/// `part` occurs somewhere in `s`.
pub open spec fn contains_text(s: Seq<char>, part: Seq<char>) -> bool {
    exists|at: int| occurs_at(s, part, at)
}

/// `s` begins with `prefix`.
pub open spec fn has_prefix(s: Seq<char>, prefix: Seq<char>) -> bool {
    occurs_at(s, prefix, 0)
}

/// The part of `s` before the first occurrence of `stop`, or all of `s`.
pub open spec fn before_char(s: Seq<char>, stop: char) -> Seq<char>
    decreases s.len(),
{
    if s.len() == 0 || s[0] == stop {
        Seq::empty()
    } else {
        seq![s[0]] + before_char(s.drop_first(), stop)
    }
}

/// The pieces one after another, with `sep` between neighbours.
pub open spec fn join_text(pieces: Seq<Seq<char>>, sep: Seq<char>) -> Seq<char>
    decreases pieces.len(),
{
    if pieces.len() == 0 {
        Seq::empty()
    } else if pieces.len() == 1 {
        pieces[0]
    } else {
        join_text(pieces.drop_last(), sep) + sep + pieces.last()
    }
}

/// The characters of `s`, in order.
pub fn chars_of(s: &str) -> (r: Vec<char>)
    ensures
        r@ == s@,
{
    let mut out: Vec<char> = Vec::new();
    for c in it: s.chars()
        invariant
            out@ == it.seq().take(it.index() as int),
            it.seq() == s@,
    {
        out.push(c);
        proof {
            assert(it.seq().take(it.index() + 1) =~= it.seq().take(it.index() as int).push(
                it.seq()[it.index() as int],
            ));
        }
    }
    proof {
        assert(s@.take(s@.len() as int) =~= s@);
    }
    out
}

/// The decimal digit `d` as a character.
fn digit(d: u64) -> (c: char)
    requires
        d < 10,
    ensures
        c == digit_char(d as nat),
{
    match d {
        0 => '0',
        1 => '1',
        2 => '2',
        3 => '3',
        4 => '4',
        5 => '5',
        6 => '6',
        7 => '7',
        8 => '8',
        _ => '9',
    }
}

/// The decimal numeral of `n`.
pub fn decimal_text(n: u64) -> (r: String)
    ensures
        r@ == decimal(n as nat),
    decreases n,
{
    if n < 10 {
        let mut s = String::new();
        s.push(digit(n));
        proof {
            assert(s@ =~= seq![digit_char(n as nat)]);
        }
        s
    } else {
        let mut s = decimal_text(n / 10);
        s.push(digit(n % 10));
        s
    }
}

/// The decimal numeral of an index.
pub fn index_text(n: usize) -> (r: String)
    ensures
        r@ == decimal(n as nat),
{
    decimal_text(n as u64)
}

/// Whether the characters of `part` occur in `s` at `at`.
fn occurs_here(s: &Vec<char>, part: &Vec<char>, at: usize) -> (b: bool)
    requires
        at + part@.len() <= s@.len(),
    ensures
        b == occurs_at(s@, part@, at as int),
{
    let n: usize = s.len();
    let mut i: usize = 0;
    while i < part.len()
        invariant
            i <= part@.len(),
            n == s@.len(),
            at + part@.len() <= n,
            forall|j: int| 0 <= j < i ==> s@[at + j] == part@[j],
        decreases part@.len() - i,
    {
        if s[at + i] != part[i] {
            proof {
                assert(s@.subrange(at as int, at + part@.len())[i as int] != part@[i as int]);
            }
            return false;
        }
        i = i + 1;
    }
    proof {
        assert(s@.subrange(at as int, at + part@.len()) =~= part@);
    }
    true
}

/// Whether `part` occurs in `s`.
pub fn contains(s: &str, part: &str) -> (b: bool)
    ensures
        b == contains_text(s@, part@),
{
    let sc = chars_of(s);
    let pc = chars_of(part);
    if pc.len() > sc.len() {
        return false;
    }
    let last: usize = sc.len() - pc.len();
    let mut at: usize = 0;
    while at <= last
        invariant
            sc@ == s@,
            pc@ == part@,
            last == sc@.len() - pc@.len(),
            at <= last + 1,
            last < sc@.len() || pc@.len() == 0,
            sc@.len() <= usize::MAX,
            forall|j: int| 0 <= j < at ==> !occurs_at(s@, part@, j),
        decreases last + 1 - at,
    {
        if occurs_here(&sc, &pc, at) {
            return true;
        }
        if at == last {
            proof {
                assert(forall|j: int| occurs_at(s@, part@, j) ==> 0 <= j <= last);
            }
            return false;
        }
        at = at + 1;
    }
    false
}

/// Whether `s` begins with `prefix`.
pub fn starts_with(s: &str, prefix: &str) -> (b: bool)
    ensures
        b == has_prefix(s@, prefix@),
{
    let sc = chars_of(s);
    let pc = chars_of(prefix);
    if pc.len() > sc.len() {
        return false;
    }
    occurs_here(&sc, &pc, 0)
}

/// The part of `s` before the first `stop`.
pub fn text_before(s: &str, stop: char) -> (r: String)
    ensures
        r@ == before_char(s@, stop),
{
    let sc = chars_of(s);
    let mut out = String::new();
    let mut i: usize = 0;
    proof {
        assert(sc@.skip(0) =~= sc@);
    }
    while i < sc.len()
        invariant
            i <= sc@.len(),
            sc@ == s@,
            before_char(s@, stop) == out@ + before_char(sc@.skip(i as int), stop),
        decreases sc@.len() - i,
    {
        proof {
            assert(sc@.skip(i as int)[0] == sc@[i as int]);
            assert(sc@.skip(i as int).drop_first() =~= sc@.skip(i + 1));
        }
        if sc[i] == stop {
            proof {
                assert(out@ + Seq::<char>::empty() =~= out@);
            }
            return out;
        }
        let ghost before = out@;
        out.push(sc[i]);
        proof {
            assert(before + (seq![sc@[i as int]] + before_char(sc@.skip(i + 1), stop)) =~= out@
                + before_char(sc@.skip(i + 1), stop));
        }
        i = i + 1;
    }
    proof {
        assert(sc@.skip(i as int).len() == 0);
        assert(out@ + Seq::<char>::empty() =~= out@);
    }
    out
}

/// The characters of the strings, string by string.
pub open spec fn texts(v: Seq<String>) -> Seq<Seq<char>> {
    v.map_values(|s: String| s@)
}

/// The strings one after another, with `sep` between neighbours.
pub fn join(pieces: &Vec<String>, sep: &str) -> (r: String)
    ensures
        r@ == join_text(texts(pieces@), sep@),
{
    let mut out = String::new();
    let mut i: usize = 0;
    proof {
        assert(texts(pieces@).take(0) =~= Seq::<Seq<char>>::empty());
    }
    while i < pieces.len()
        invariant
            i <= pieces@.len(),
            out@ == join_text(texts(pieces@).take(i as int), sep@),
        decreases pieces@.len() - i,
    {
        let ghost done = texts(pieces@).take(i as int);
        let ghost next = texts(pieces@).take(i + 1);
        proof {
            assert(next.drop_last() =~= done);
            assert(next.last() == pieces@[i as int]@);
        }
        if i != 0 {
            out.append(sep);
            out.append(pieces[i].as_str());
        } else {
            out.append(pieces[i].as_str());
            proof {
                assert(Seq::<char>::empty() + pieces@[0]@ =~= pieces@[0]@);
            }
        }
        i = i + 1;
    }
    proof {
        assert(texts(pieces@).take(i as int) =~= texts(pieces@));
    }
    out
}

/// The text before a character holds none, is where the text begins, and is all
/// of it or is followed by the character.
pub proof fn text_before_stops_at_the_first(s: Seq<char>, stop: char)
    ensures
        before_char(s, stop).len() <= s.len(),
        before_char(s, stop) == s.take(before_char(s, stop).len() as int),
        !before_char(s, stop).contains(stop),
        before_char(s, stop).len() < s.len() ==> s[before_char(s, stop).len() as int] == stop,
    decreases s.len(),
{
    if s.len() > 0 && s[0] != stop {
        let rest = s.drop_first();
        let b = before_char(rest, stop);
        text_before_stops_at_the_first(rest, stop);
        let all = seq![s[0]] + b;
        assert forall|i: int| 0 <= i < all.len() implies #[trigger] all[i] == s[i] && all[i]
            != stop by {
            if i > 0 {
                assert(all[i] == b[i - 1]);
                assert(b[i - 1] == rest.take(b.len() as int)[i - 1]);
                assert(b.contains(b[i - 1]));
            }
        }
        assert(all =~= s.take(all.len() as int));
        if b.len() < rest.len() {
            assert(rest[b.len() as int] == s[b.len() as int + 1]);
        }
    } else {
        assert(before_char(s, stop) =~= s.take(0));
    }
}

/// The number that a decimal numeral stands for.
pub open spec fn numeral_value(s: Seq<char>) -> int
    decreases s.len(),
{
    if s.len() == 0 {
        0
    } else {
        numeral_value(s.drop_last()) * 10 + (s.last() as int - '0' as int)
    }
}

/// A numeral stands for the number that it was made of, so that different
/// numbers read differently.
pub proof fn numerals_are_read_back(n: nat)
    ensures
        decimal(n).len() > 0,
        numeral_value(decimal(n)) == n,
    decreases n,
{
    reveal_with_fuel(numeral_value, 2);
    if n < 10 {
        assert(decimal(n).drop_last() =~= Seq::<char>::empty());
        assert(decimal(n).last() == digit_char(n));
    } else {
        numerals_are_read_back(n / 10);
        assert(decimal(n).drop_last() =~= decimal(n / 10));
        assert(decimal(n).last() == digit_char(n % 10));
    }
}

/// Pieces are joined one after the other, with the separator between them only.
pub proof fn pieces_are_joined(pieces: Seq<Seq<char>>, x: Seq<char>, sep: Seq<char>)
    ensures
        join_text(Seq::empty(), sep).len() == 0,
        join_text(seq![x], sep) == x,
        pieces.len() > 0 ==> join_text(pieces.push(x), sep) == join_text(pieces, sep) + sep + x,
{
    assert(pieces.push(x).drop_last() =~= pieces);
}

} // verus!
