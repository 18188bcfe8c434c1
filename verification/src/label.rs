//! The labels under which cells are assigned.
use vstd::prelude::*;
use vstd::string::StringExecFns;

verus! {

/// The decimal digit `d`, for `d` below ten.
pub open spec fn digit(d: int) -> Seq<char> {
    if d == 0 {
        "0"@
    } else if d == 1 {
        "1"@
    } else if d == 2 {
        "2"@
    } else if d == 3 {
        "3"@
    } else if d == 4 {
        "4"@
    } else if d == 5 {
        "5"@
    } else if d == 6 {
        "6"@
    } else if d == 7 {
        "7"@
    } else if d == 8 {
        "8"@
    } else {
        "9"@
    }
}

/// The decimal numeral of `n`, without leading zeros.
pub open spec fn numeral(n: nat) -> Seq<char>
    decreases n,
{
    if n < 10 {
        digit(n as int)
    } else {
        numeral(n / 10) + digit(n as int % 10)
    }
}

/// A label that ends in a number, such as `load state_4`.
pub open spec fn indexed(stem: Seq<char>, index: nat) -> Seq<char> {
    stem + numeral(index)
}

/// A label that names a round, such as `round_3 partial_sbox`.
pub open spec fn of_round(round: nat, what: Seq<char>) -> Seq<char> {
    "round_"@ + numeral(round) + what
}

/// A label that names a round and ends in a number, such as `round_3 rc_4`.
pub open spec fn of_round_indexed(round: nat, what: Seq<char>, index: nat) -> Seq<char> {
    of_round(round, what) + numeral(index)
}

/// A numeral is the number it spells, in decimal: reading its digits from the left, and taking ten
/// times what was read so far with every further one, comes out at the number. There is no leading
/// zero, except in zero itself.
pub proof fn law_numerals_are_decimal(n: nat) -> (read: Seq<int>)
    ensures
        numeral(n).len() > 0,
        n > 0 ==> numeral(n)[0] != '0',
        n == 0 ==> numeral(n).len() == 1,
        forall|j: int| 0 <= j < numeral(n).len() ==> '0' <= #[trigger] numeral(n)[j] <= '9',
        read.len() == numeral(n).len() + 1,
        read[0] == 0,
        forall|j: int|
            0 <= j < numeral(n).len() ==> read[j + 1] == 10 * read[j] + (#[trigger] numeral(n)[j]
                as int - '0' as int),
        read.last() == n,
    decreases n,
{
    reveal_strlit("0");
    reveal_strlit("1");
    reveal_strlit("2");
    reveal_strlit("3");
    reveal_strlit("4");
    reveal_strlit("5");
    reveal_strlit("6");
    reveal_strlit("7");
    reveal_strlit("8");
    reveal_strlit("9");
    if n < 10 {
        seq![0int, n as int]
    } else {
        let head = numeral(n / 10);
        let read = law_numerals_are_decimal(n / 10);
        let last = digit(n as int % 10);
        assert(last.len() == 1 && last[0] as int == n as int % 10 + '0' as int);
        let all = read.push(n as int);
        assert forall|j: int| 0 <= j < numeral(n).len() implies {
            &&& '0' <= #[trigger] numeral(n)[j] <= '9'
            &&& all[j + 1] == 10 * all[j] + (numeral(n)[j] as int - '0' as int)
        } by {
            if j < head.len() {
                assert(numeral(n)[j] == head[j]);
            }
        }
        assert(numeral(n)[0] == head[0]);
        all
    }
}

/// Labels are made of their parts, one after the other.
pub proof fn law_labels_are_their_parts(stem: Seq<char>, round: nat, index: nat)
    ensures
        indexed(stem, index) == stem + numeral(index),
        of_round(round, stem) == "round_"@ + numeral(round) + stem,
        of_round_indexed(round, stem, index) == "round_"@ + numeral(round) + stem + numeral(index),
{
}

fn digit_text(d: usize) -> (r: &'static str)
    requires
        d < 10,
    ensures
        r@ == digit(d as int),
{
    if d == 0 {
        "0"
    } else if d == 1 {
        "1"
    } else if d == 2 {
        "2"
    } else if d == 3 {
        "3"
    } else if d == 4 {
        "4"
    } else if d == 5 {
        "5"
    } else if d == 6 {
        "6"
    } else if d == 7 {
        "7"
    } else if d == 8 {
        "8"
    } else {
        "9"
    }
}

/// Appends the decimal numeral of `n`.
fn append_numeral(text: &mut String, n: usize)
    ensures
        final(text)@ == old(text)@ + numeral(n as nat),
    decreases n,
{
    if n < 10 {
        text.append(digit_text(n));
    } else {
        let ghost before = text@;
        append_numeral(text, n / 10);
        text.append(digit_text(n % 10));
        assert(text@ =~= before + numeral(n as nat));
    }
}

/// The label `stem` followed by the number `index`.
pub fn label_indexed(stem: &str, index: usize) -> (r: String)
    ensures
        r@ == indexed(stem@, index as nat),
{
    let mut text: String = String::from_str(stem);
    append_numeral(&mut text, index);
    text
}

/// The label `what` of round `round`.
pub fn label_of_round(round: usize, what: &str) -> (r: String)
    ensures
        r@ == of_round(round as nat, what@),
{
    let mut text: String = String::from_str("round_");
    append_numeral(&mut text, round);
    text.append(what);
    text
}

/// The label `what` of round `round`, followed by the number `index`.
pub fn label_of_round_indexed(round: usize, what: &str, index: usize) -> (r: String)
    ensures
        r@ == of_round_indexed(round as nat, what@, index as nat),
{
    let mut text: String = label_of_round(round, what);
    append_numeral(&mut text, index);
    text
}

/// The name of the region that holds the initial state of a sponge.
pub fn initial_state_name(domain: &str) -> (r: String)
    ensures
        r@ == "initial state for domain "@ + domain@,
{
    let mut text: String = String::from_str("initial state for domain ");
    text.append(domain);
    text
}

/// The name of the region in which a sponge absorbs input.
pub fn add_input_name(domain: &str) -> (r: String)
    ensures
        r@ == "add input for domain "@ + domain@,
{
    let mut text: String = String::from_str("add input for domain ");
    text.append(domain);
    text
}

} // verus!
