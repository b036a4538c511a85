//! File names of the chunk artifacts in the working area.
//!
//! A chunk is stored as `part_<index>` and its compressed form as
//! `part_<index>.gz`, the index in decimal. Distinct artifacts get distinct
//! names, and the index can be read back from a name.

use vstd::prelude::*;
use vstd::string::*;

verus! {

/// The character for a decimal digit.
pub open spec fn digit_char(d: nat) -> char {
    if d == 0 {
        '0'
    } else if d == 1 {
        '1'
    } else if d == 2 {
        '2'
    } else if d == 3 {
        '3'
    } else if d == 4 {
        '4'
    } else if d == 5 {
        '5'
    } else if d == 6 {
        '6'
    } else if d == 7 {
        '7'
    } else if d == 8 {
        '8'
    } else {
        '9'
    }
}

/// The digit a character stands for.
pub open spec fn digit_value(c: char) -> nat {
    if c == '1' {
        1
    } else if c == '2' {
        2
    } else if c == '3' {
        3
    } else if c == '4' {
        4
    } else if c == '5' {
        5
    } else if c == '6' {
        6
    } else if c == '7' {
        7
    } else if c == '8' {
        8
    } else if c == '9' {
        9
    } else {
        0
    }
}

/// `n` in decimal, without leading zeros.
pub open spec fn decimal(n: nat) -> Seq<char>
    decreases n,
{
    if n < 10 {
        seq![digit_char(n)]
    } else {
        decimal(n / 10).push(digit_char(n % 10))
    }
}

/// The number that a string of digits stands for.
pub open spec fn decimal_value(digits: Seq<char>) -> nat
    decreases digits.len(),
{
    if digits.len() == 0 {
        0
    } else {
        decimal_value(digits.drop_last()) * 10 + digit_value(digits.last())
    }
}

/// The prefix that marks a chunk artifact.
pub open spec fn part_prefix() -> Seq<char> {
    seq!['p', 'a', 'r', 't', '_']
}

/// The extension that marks a compressed chunk.
pub open spec fn gz_suffix() -> Seq<char> {
    seq!['.', 'g', 'z']
}

/// Name of the chunk at `index`.
pub open spec fn part_name_of(index: nat) -> Seq<char> {
    part_prefix() + decimal(index)
}

/// Name of the compressed chunk at `index`.
pub open spec fn compressed_name_of(index: nat) -> Seq<char> {
    part_name_of(index) + gz_suffix()
}

/// Reading a decimal back gives the number; a decimal holds digits only.
pub proof fn lemma_decimal_value(n: nat)
    ensures
        decimal_value(decimal(n)) == n,
        decimal(n).len() >= 1,
        forall|i: int| 0 <= i < decimal(n).len() ==> #[trigger] decimal(n)[i] != '.',
    decreases n,
{
    if n < 10 {
        assert(decimal(n).drop_last() =~= Seq::<char>::empty());
        assert(decimal_value(decimal(n).drop_last()) == 0);
    } else {
        lemma_decimal_value(n / 10);
        assert(decimal(n).drop_last() =~= decimal(n / 10));
    }
}

/// Distinct artifacts have distinct names: two chunks share a name only if
/// they are the same chunk, so do two compressed chunks, and no chunk shares
/// its name with a compressed chunk.
pub proof fn lemma_names_distinct(i: nat, j: nat)
    ensures
        part_name_of(i) == part_name_of(j) ==> i == j,
        compressed_name_of(i) == compressed_name_of(j) ==> i == j,
        part_name_of(i) != compressed_name_of(j),
{
    lemma_decimal_value(i);
    lemma_decimal_value(j);
    let p = part_prefix();
    let di = decimal(i);
    let dj = decimal(j);
    assert(part_name_of(i).subrange(5, part_name_of(i).len() as int) =~= di);
    assert(part_name_of(j).subrange(5, part_name_of(j).len() as int) =~= dj);
    let ci = compressed_name_of(i);
    let cj = compressed_name_of(j);
    assert(ci.subrange(5, ci.len() - 3) =~= di);
    assert(cj.subrange(5, cj.len() - 3) =~= dj);
    if part_name_of(i) == cj {
        assert(di.len() == dj.len() + 3);
        assert(cj[5 + dj.len() as int] == '.');
        assert(part_name_of(i)[5 + dj.len() as int] == di[dj.len() as int]);
    }
}

/// The one-character string for a digit.
fn digit_str(d: usize) -> (s: &'static str)
    requires
        d < 10,
    ensures
        s@ == seq![digit_char(d as nat)],
{
    proof {
        reveal_strlit("0");
        reveal_strlit("1");
        reveal_strlit("2");
        reveal_strlit("3");
        reveal_strlit("4");
        reveal_strlit("5");
        reveal_strlit("6");
        reveal_strlit("7");
        reveal_strlit("8");
        reveal_strlit("9");
    }
    let s = if d == 0 {
        "0"
    } else if d == 1 {
        "1"
    } else if d == 2 {
        "2"
    } else if d == 3 {
        "3"
    } else if d == 4 {
        "4"
    } else if d == 5 {
        "5"
    } else if d == 6 {
        "6"
    } else if d == 7 {
        "7"
    } else if d == 8 {
        "8"
    } else {
        "9"
    };
    assert(s@ =~= seq![digit_char(d as nat)]);
    s
}

/// Appends `n` in decimal to `text`.
fn push_decimal(text: &mut String, n: usize)
    ensures
        final(text)@ == old(text)@ + decimal(n as nat),
    decreases n,
{
    if n >= 10 {
        push_decimal(text, n / 10);
    }
    text.append(digit_str(n % 10));
    proof {
        if n >= 10 {
            assert(old(text)@ + decimal((n / 10) as nat) + seq![digit_char((n % 10) as nat)]
                =~= old(text)@ + decimal(n as nat));
        }
    }
}

/// File name of the chunk at `index`: `part_` and the index in decimal.
pub fn part_name(index: usize) -> (name: String)
    ensures
        name@ == part_name_of(index as nat),
{
    proof {
        reveal_strlit("part_");
    }
    let mut name = String::from_str("part_");
    assert(name@ =~= part_prefix());
    push_decimal(&mut name, index);
    name
}

/// File name of the compressed chunk at `index`: the chunk's name with the
/// extension `.gz`.
pub fn compressed_name(index: usize) -> (name: String)
    ensures
        name@ == compressed_name_of(index as nat),
{
    proof {
        reveal_strlit(".gz");
    }
    let mut name = part_name(index);
    name.append(".gz");
    assert(".gz"@ =~= gz_suffix());
    name
}

} // verus!
