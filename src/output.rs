//! Text that precedes a numbered output line.
use vstd::prelude::*;

verus! {

pub open spec fn digit(d: nat) -> char {
    ((d + 48) as u8) as char
}

/// Decimal digits of `n`, most significant first.
pub open spec fn decimal(n: nat) -> Seq<char>
    decreases n,
{
    if n < 10 {
        seq![digit(n)]
    } else {
        decimal(n / 10).push(digit(n % 10))
    }
}

/// `s` right-justified in a field of `w` characters, padded with spaces.
pub open spec fn pad_left(s: Seq<char>, w: nat) -> Seq<char>
    decreases w - s.len(),
{
    if s.len() >= w {
        s
    } else {
        pad_left(seq![' '] + s, w)
    }
}

/// The prefix of output line number `lineno` (counted from 0): the 1-based
/// number right-justified in six columns, then a tab.
pub open spec fn line_prefix(lineno: nat) -> Seq<char> {
    pad_left(decimal(lineno + 1), 6).push('\t')
}

/// Relies on `String: FromIterator<char>`: the characters in order.
#[verifier::external_body]
fn string_of(chars: Vec<char>) -> (r: String)
    ensures
        r@ == chars@,
{
    chars.into_iter().collect()
}

/// Prefix to write before output line `lineno` (counted from 0) when lines
/// are numbered.
pub fn number_prefix(lineno: usize) -> (r: String)
    requires
        lineno < usize::MAX,
    ensures
        r@ == line_prefix(lineno as nat),
{
    let orig: usize = lineno + 1;
    let mut n: usize = orig;
    let mut digits: Vec<char> = Vec::new();
    while n >= 10
        invariant
            n > 0,
            decimal(n as nat) + digits@ == decimal(orig as nat),
        decreases n,
    {
        let d = (n % 10) as u8 + 48;
        let ghost before = digits@;
        digits.insert(0, d as char);
        proof {
            assert(decimal(n as nat) == decimal((n / 10) as nat).push(digit((n % 10) as nat)));
            assert(decimal((n / 10) as nat) + digits@ =~= decimal(n as nat) + before);
        }
        n = n / 10;
    }
    let ghost before = digits@;
    digits.insert(0, ((n as u8) + 48) as char);
    assert(digits@ =~= decimal(n as nat) + before);
    while digits.len() < 6
        invariant
            pad_left(digits@, 6) == pad_left(decimal(orig as nat), 6),
        decreases 6 - digits@.len(),
    {
        let ghost before = digits@;
        digits.insert(0, ' ');
        assert(digits@ =~= seq![' '] + before);
    }
    digits.push('\t');
    string_of(digits)
}

} // verus!
