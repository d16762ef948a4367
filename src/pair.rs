//! Reading a pair of values written as `<left><separator><right>`.

use vstd::prelude::*;

verus! {

/// Whether `i` is the position of the first occurrence of `c` in `s`.
pub open spec fn is_first_index(s: Seq<char>, c: char, i: int) -> bool {
    &&& 0 <= i < s.len()
    &&& s[i] == c
    &&& forall|j: int| 0 <= j < i ==> s[j] != c
}

/// The position of the first occurrence of `separator` in `s`, if any.
pub fn find_separator(s: &str, separator: char) -> (r: Option<usize>)
    ensures
        match r {
            Some(i) => is_first_index(s@, separator, i as int),
            None => !s@.contains(separator),
        },
{
    let n = s.unicode_len();
    let mut i: usize = 0;
    while i < n
        invariant
            n == s@.len(),
            i <= n,
            forall|j: int| 0 <= j < i ==> s@[j] != separator,
        decreases n - i,
    {
        if s.get_char(i) == separator {
            return Some(i);
        }
        i = i + 1;
    }
    None
}

/// `s` cut at the first occurrence of `separator`, which belongs to neither side;
/// `None` where `separator` does not occur.
pub fn split_pair<'a>(s: &'a str, separator: char) -> (r: Option<(&'a str, &'a str)>)
    ensures
        r is None <==> !s@.contains(separator),
        r matches Some((left, right)) ==> exists|i: int|
            is_first_index(s@, separator, i) && left@ == s@.subrange(0, i) && right@ == s@.subrange(
                i + 1,
                s@.len() as int,
            ),
{
    match find_separator(s, separator) {
        None => None,
        Some(i) => {
            let n = s.unicode_len();
            let left = s.substring_char(0, i);
            let right = s.substring_char(i + 1, n);
            Some((left, right))
        },
    }
}

/// Both values where both sides were read, else `None`.
pub fn join_parsed<T>(left: Option<T>, right: Option<T>) -> (r: Option<(T, T)>)
    ensures
        r == match (left, right) {
            (Some(l), Some(x)) => Some((l, x)),
            _ => None::<(T, T)>,
        },
{
    match (left, right) {
        (Some(l), Some(x)) => Some((l, x)),
        _ => None,
    }
}

/// Relies on `FromStr::from_str` of `T` to read one side of a pair.
#[verifier::external_body]
fn parse_field<T: std::str::FromStr>(s: &str) -> (r: Option<T>) {
    T::from_str(s).ok()
}

/// Reads `s` as `<left><separator><right>`, each side read by `T`'s `FromStr`,
/// for instance `"400x600"` or `"1.0,0.5"`. `None` where `separator` does not
/// occur or where either side does not read as a `T`.
pub fn parse_pair<T: std::str::FromStr>(s: &str, separator: char) -> (r: Option<(T, T)>)
    ensures
        !s@.contains(separator) ==> r is None,
        r is Some ==> s@.contains(separator),
{
    match split_pair(s, separator) {
        None => None,
        Some((left, right)) => join_parsed(parse_field::<T>(left), parse_field::<T>(right)),
    }
}

/// Whether `c` is one of the ASCII digits `0` to `9`.
pub open spec fn is_decimal_digit(c: char) -> bool {
    '0' as u32 <= c as u32 <= '9' as u32
}

/// The number that the decimal digits `d` write, most significant first.
pub open spec fn digits_value(d: Seq<char>) -> int
    decreases d.len(),
{
    if d.len() == 0 {
        0
    } else {
        digits_value(d.drop_last()) * 10 + (d.last() as u32 - '0' as u32)
    }
}

/// `s` without one leading `+`, if it has one.
pub open spec fn unsigned_digits(s: Seq<char>) -> Seq<char> {
    if s.len() > 0 && s[0] == '+' {
        s.drop_first()
    } else {
        s
    }
}

/// What `s` reads as a `usize`: an optional `+` then at least one decimal
/// digit, with a value that fits; `None` for anything else.
pub open spec fn usize_of(s: Seq<char>) -> Option<usize> {
    let d = unsigned_digits(s);
    if d.len() > 0 && (forall|i: int| 0 <= i < d.len() ==> is_decimal_digit(#[trigger] d[i]))
        && digits_value(d) <= usize::MAX {
        Some(digits_value(d) as usize)
    } else {
        None
    }
}

/// What `s` reads as a pair of `usize` values cut at the first `separator`.
pub open spec fn usize_pair_of(s: Seq<char>, separator: char) -> Option<(usize, usize)> {
    if s.contains(separator) {
        let i = choose|i: int| is_first_index(s, separator, i);
        match (usize_of(s.subrange(0, i)), usize_of(s.subrange(i + 1, s.len() as int))) {
            (Some(a), Some(b)) => Some((a, b)),
            _ => None,
        }
    } else {
        None
    }
}

/// Relies on `usize::from_str`: an optional `+` and at least one decimal digit,
/// whose value fits in a `usize`, read in base ten; an error otherwise.
#[verifier::external_body]
fn parse_usize(s: &str) -> (r: Option<usize>)
    ensures
        r == usize_of(s@),
{
    <usize as std::str::FromStr>::from_str(s).ok()
}

proof fn lemma_first_index_unique(s: Seq<char>, c: char, i: int, j: int)
    requires
        is_first_index(s, c, i),
        is_first_index(s, c, j),
    ensures
        i == j,
{
    if i < j {
        assert(s[i] == c);
    } else if j < i {
        assert(s[j] == c);
    }
}

/// Reads `s` as `<width><separator><height>`, two `usize` values such as
/// `"1000x750"`; `None` where `separator` does not occur or where either side
/// is not a `usize`.
pub fn parse_bounds(s: &str, separator: char) -> (r: Option<(usize, usize)>)
    ensures
        r == usize_pair_of(s@, separator),
{
    match split_pair(s, separator) {
        None => None,
        Some((left, right)) => {
            proof {
                let i = choose|i: int|
                    is_first_index(s@, separator, i) && left@ == s@.subrange(0, i) && right@
                        == s@.subrange(i + 1, s@.len() as int);
                let k = choose|k: int| is_first_index(s@, separator, k);
                assert(s@[i] == separator);
                lemma_first_index_unique(s@, separator, i, k);
            }
            join_parsed(parse_usize(left), parse_usize(right))
        },
    }
}

/// The decimal digit that stands for `d`, for `d` below ten.
pub open spec fn digit_char(d: nat) -> char {
    seq!['0', '1', '2', '3', '4', '5', '6', '7', '8', '9'][d as int]
}

/// `n` written in decimal, most significant digit first, with no leading zero.
pub open spec fn decimal_of(n: nat) -> Seq<char>
    decreases n,
{
    if n < 10 {
        seq![digit_char(n)]
    } else {
        decimal_of(n / 10).push(digit_char(n % 10))
    }
}

proof fn lemma_digit_char(d: nat)
    requires
        d < 10,
    ensures
        is_decimal_digit(digit_char(d)),
        digit_char(d) as u32 - '0' as u32 == d,
{
    let t = seq!['0', '1', '2', '3', '4', '5', '6', '7', '8', '9'];
    assert(t[0] == '0' && t[1] == '1' && t[2] == '2' && t[3] == '3' && t[4] == '4');
    assert(t[5] == '5' && t[6] == '6' && t[7] == '7' && t[8] == '8' && t[9] == '9');
}

proof fn lemma_decimal_of(n: nat)
    ensures
        decimal_of(n).len() > 0,
        forall|i: int| 0 <= i < decimal_of(n).len() ==> is_decimal_digit(#[trigger] decimal_of(n)[i]),
        digits_value(decimal_of(n)) == n,
    decreases n,
{
    if n < 10 {
        lemma_digit_char(n);
        assert(seq![digit_char(n)].drop_last() =~= Seq::<char>::empty());
        assert(digits_value(Seq::<char>::empty()) == 0);
        assert(digits_value(decimal_of(n)) == 0 * 10 + n);
    } else {
        lemma_decimal_of(n / 10);
        lemma_digit_char(n % 10);
        let d = decimal_of(n / 10);
        assert(d.push(digit_char(n % 10)).drop_last() =~= d);
        assert(n == (n / 10) * 10 + n % 10) by (nonlinear_arith);
        assert(digits_value(decimal_of(n)) == digits_value(d) * 10 + (n % 10));
        assert forall|i: int| 0 <= i < decimal_of(n).len() implies is_decimal_digit(
            #[trigger] decimal_of(n)[i],
        ) by {
            if i < d.len() {
                assert(decimal_of(n)[i] == d[i]);
            }
        }
    }
}

/// Two sizes written in decimal around a separator that is not a digit read
/// back as the same two sizes.
pub proof fn lemma_bounds_round_trip(width: usize, height: usize, separator: char)
    requires
        !is_decimal_digit(separator),
    ensures
        usize_pair_of(
            decimal_of(width as nat) + seq![separator] + decimal_of(height as nat),
            separator,
        ) == Some((width, height)),
{
    let a = decimal_of(width as nat);
    let b = decimal_of(height as nat);
    let s = a + seq![separator] + b;
    lemma_decimal_of(width as nat);
    lemma_decimal_of(height as nat);
    let n = a.len() as int;
    assert forall|j: int| 0 <= j < n implies s[j] != separator by {
        assert(s[j] == a[j]);
        assert(is_decimal_digit(a[j]));
    }
    assert(s[n] == separator);
    assert(is_first_index(s, separator, n));
    assert(s.contains(separator));
    let k = choose|k: int| is_first_index(s, separator, k);
    lemma_first_index_unique(s, separator, n, k);
    assert(s.subrange(0, n) =~= a);
    assert(s.subrange(n + 1, s.len() as int) =~= b);
    assert(is_decimal_digit(a[0]));
    assert(is_decimal_digit(b[0]));
    assert(unsigned_digits(a) == a);
    assert(unsigned_digits(b) == b);
}

} // verus!
