use vstd::prelude::*;
use vstd::arithmetic::div_mod::{lemma_fundamental_div_mod, lemma_fundamental_div_mod_converse};
use vstd::string::StrSliceExecFns;

verus! {

/// Decimal digit characters.
pub open spec fn is_digit(c: char) -> bool {
    '0' <= c <= '9'
}

/// The character for one decimal digit.
pub open spec fn digit_char(d: nat) -> char {
    if d == 0 { '0' }
    else if d == 1 { '1' }
    else if d == 2 { '2' }
    else if d == 3 { '3' }
    else if d == 4 { '4' }
    else if d == 5 { '5' }
    else if d == 6 { '6' }
    else if d == 7 { '7' }
    else if d == 8 { '8' }
    else { '9' }
}

/// The value of one decimal digit character.
pub open spec fn digit_val(c: char) -> nat {
    if c == '0' { 0 }
    else if c == '1' { 1 }
    else if c == '2' { 2 }
    else if c == '3' { 3 }
    else if c == '4' { 4 }
    else if c == '5' { 5 }
    else if c == '6' { 6 }
    else if c == '7' { 7 }
    else if c == '8' { 8 }
    else { 9 }
}

/// The canonical decimal rendering of a number: no sign, no leading zero
/// except for the single digit of zero itself.
pub open spec fn dec_seq(n: nat) -> Seq<char>
    decreases n,
{
    if n < 10 {
        seq![digit_char(n)]
    } else {
        dec_seq(n / 10).push(digit_char(n % 10))
    }
}

/// The number a sequence of digit characters denotes.
pub open spec fn digits_val(s: Seq<char>) -> nat
    decreases s.len(),
{
    if s.len() == 0 {
        0
    } else {
        digits_val(s.drop_last()) * 10 + digit_val(s.last())
    }
}

/// A run of digit characters.
pub open spec fn all_digits(s: Seq<char>) -> bool {
    forall|i: int| 0 <= i < s.len() ==> is_digit(#[trigger] s[i])
}

/// A canonical decimal rendering: nonempty, digits only, no leading zero.
pub open spec fn canonical_digits(s: Seq<char>) -> bool {
    &&& s.len() >= 1
    &&& all_digits(s)
    &&& (s.len() > 1 ==> s[0] != '0')
}

pub proof fn lemma_dec_seq_shape(n: nat)
    ensures
        canonical_digits(dec_seq(n)),
        n < 10 ==> dec_seq(n).len() == 1,
        dec_seq(n)[0] == '0' ==> n == 0,
    decreases n,
{
    if n < 10 {
    } else {
        lemma_dec_seq_shape(n / 10);
        let s = dec_seq(n);
        let d = dec_seq(n / 10);
        assert(s == d.push(digit_char(n % 10)));
        assert forall|i: int| 0 <= i < s.len() implies is_digit(#[trigger] s[i]) by {
            if i < d.len() {
                assert(s[i] == d[i]);
            } else {
                assert(s[i] == digit_char(n % 10));
            }
        }
        assert(s[0] == d[0]);
    }
}

pub proof fn lemma_dec_seq_val(n: nat)
    ensures
        digits_val(dec_seq(n)) == n,
    decreases n,
{
    if n < 10 {
        assert(digits_val(Seq::<char>::empty()) == 0);
        assert(dec_seq(n).drop_last() =~= Seq::<char>::empty());
        assert(dec_seq(n).last() == digit_char(n));
        assert(digit_val(digit_char(n)) == n);
    } else {
        lemma_dec_seq_val(n / 10);
        let s = dec_seq(n);
        assert(s.drop_last() =~= dec_seq(n / 10));
        assert(s.last() == digit_char(n % 10));
        lemma_fundamental_div_mod(n as int, 10);
        assert(digit_val(digit_char(n % 10)) == n % 10);
    }
}

/// A nonempty digit run without a leading zero denotes a positive number,
/// except the single digit zero.
pub proof fn lemma_digits_val_pos(s: Seq<char>)
    requires
        canonical_digits(s),
        s.len() > 1 || s[0] != '0',
    ensures
        digits_val(s) >= 1,
    decreases s.len(),
{
    if s.len() == 1 {
    } else {
        let d = s.drop_last();
        assert(d[0] == s[0]);
        assert forall|i: int| 0 <= i < d.len() implies is_digit(#[trigger] d[i]) by {
            assert(d[i] == s[i]);
        }
        lemma_digits_val_pos(d);
    }
}

/// A canonical digit run is the rendering of its own value.
pub proof fn lemma_digits_canonical(s: Seq<char>)
    requires
        canonical_digits(s),
    ensures
        dec_seq(digits_val(s)) == s,
    decreases s.len(),
{
    if s.len() == 1 {
        assert(digits_val(Seq::<char>::empty()) == 0);
        assert(s.drop_last() =~= Seq::<char>::empty());
        assert(s.last() == s[0]);
        assert(digits_val(s) == digit_val(s[0]));
        assert(dec_seq(digit_val(s[0])) =~= s);
    } else {
        let d = s.drop_last();
        assert(d[0] == s[0]);
        assert forall|i: int| 0 <= i < d.len() implies is_digit(#[trigger] d[i]) by {
            assert(d[i] == s[i]);
        }
        lemma_digits_canonical(d);
        lemma_digits_val_pos(d);
        let v = digits_val(d);
        let w = digits_val(s);
        let e = digit_val(s.last());
        assert(w == v * 10 + e);
        assert(v >= 1);
        assert(w >= 10) by (nonlinear_arith)
            requires
                w == v * 10 + e,
                v >= 1,
                e >= 0,
        ;
        lemma_fundamental_div_mod_converse(w as int, 10, v as int, e as int);
        assert(w / 10 == v && w % 10 == e);
        assert(dec_seq(w) == dec_seq(v).push(digit_char(e)));
        assert(digit_char(digit_val(s.last())) == s.last());
        assert(dec_seq(w) =~= s);
    }
}

/// The value of a prefix of a digit run never exceeds the value of the run.
pub proof fn lemma_digits_val_prefix(s: Seq<char>, i: int)
    requires
        all_digits(s),
        0 <= i <= s.len(),
    ensures
        digits_val(s.take(i)) <= digits_val(s),
    decreases s.len(),
{
    if i == s.len() {
        assert(s.take(i) =~= s);
    } else {
        let d = s.drop_last();
        assert forall|j: int| 0 <= j < d.len() implies is_digit(#[trigger] d[j]) by {
            assert(d[j] == s[j]);
        }
        assert(s.take(i) =~= d.take(i));
        lemma_digits_val_prefix(d, i);
        assert(digits_val(s) == digits_val(d) * 10 + digit_val(s.last()));
        assert(digits_val(d) * 10 >= digits_val(d)) by (nonlinear_arith);
    }
}

/// `pat` occurs in `input` at position `pos`.
pub open spec fn starts_with(input: Seq<char>, pos: int, pat: Seq<char>) -> bool {
    &&& 0 <= pos
    &&& pos + pat.len() <= input.len()
    &&& input.subrange(pos, pos + pat.len()) == pat
}

pub proof fn lemma_starts_with_concat(input: Seq<char>, pos: int, a: Seq<char>, b: Seq<char>)
    ensures
        starts_with(input, pos, a + b) <==> (starts_with(input, pos, a) && starts_with(
            input,
            pos + a.len(),
            b,
        )),
{
    let ab = a + b;
    if starts_with(input, pos, ab) {
        assert forall|j: int|
            0 <= j < a.len() implies input.subrange(pos, pos + a.len())[j] == a[j] by {
            assert(input.subrange(pos, pos + ab.len())[j] == ab[j]);
        }
        assert(input.subrange(pos, pos + a.len()) =~= a);
        assert forall|j: int|
            0 <= j < b.len() implies input.subrange(pos + a.len(), pos + a.len() + b.len())[j]
            == b[j] by {
            assert(input.subrange(pos, pos + ab.len())[a.len() + j] == ab[a.len() + j]);
        }
        assert(input.subrange(pos + a.len(), pos + a.len() + b.len()) =~= b);
    }
    if starts_with(input, pos, a) && starts_with(input, pos + a.len(), b) {
        assert forall|j: int|
            0 <= j < ab.len() implies input.subrange(pos, pos + ab.len())[j] == ab[j] by {
            if j < a.len() {
                assert(input.subrange(pos, pos + a.len())[j] == a[j]);
            } else {
                assert(input.subrange(pos + a.len(), pos + a.len() + b.len())[j - a.len()]
                    == b[j - a.len()]);
            }
        }
        assert(input.subrange(pos, pos + ab.len()) =~= ab);
    }
}

pub proof fn lemma_starts_with_index(input: Seq<char>, pos: int, pat: Seq<char>, i: int)
    requires
        starts_with(input, pos, pat),
        0 <= i < pat.len(),
    ensures
        input[pos + i] == pat[i],
{
    assert(input.subrange(pos, pos + pat.len())[i] == pat[i]);
}

/// The canonical rendering of `n` stands at `pos` and is not followed by a
/// further digit: exactly how a number is laid down in a snapshot.
pub open spec fn num_at(input: Seq<char>, pos: int, n: u64) -> bool {
    &&& starts_with(input, pos, dec_seq(n as nat))
    &&& {
        let end = pos + dec_seq(n as nat).len();
        end == input.len() || !is_digit(input[end])
    }
}

/// Maps a digit character to its value; any other character is refused.
fn digit_of_char(c: char) -> (r: Option<u64>)
    ensures
        match r {
            Some(d) => is_digit(c) && d < 10 && d as nat == digit_val(c),
            None => !is_digit(c),
        },
{
    match c {
        '0' => Some(0),
        '1' => Some(1),
        '2' => Some(2),
        '3' => Some(3),
        '4' => Some(4),
        '5' => Some(5),
        '6' => Some(6),
        '7' => Some(7),
        '8' => Some(8),
        '9' => Some(9),
        _ => None,
    }
}

/// One decimal digit as a string slice.
fn digit_to_str(d: u64) -> (r: &'static str)
    requires
        d < 10,
    ensures
        r@ == seq![digit_char(d as nat)],
{
    proof {
        reveal_strlit("0");
        reveal_strlit("1");
        reveal_strlit("2");
        reveal_strlit("3");
        reveal_strlit("4");
        reveal_strlit("5");
        reveal_strlit("6");
        reveal_strlit("7");
        reveal_strlit("8");
        reveal_strlit("9");
    }
    let r = match d {
        0 => "0",
        1 => "1",
        2 => "2",
        3 => "3",
        4 => "4",
        5 => "5",
        6 => "6",
        7 => "7",
        8 => "8",
        _ => "9",
    };
    proof {
        assert(r@ =~= seq![digit_char(d as nat)]);
    }
    r
}

/// Renders a number in canonical decimal.
pub fn u64_to_dec(n: u64) -> (s: String)
    ensures
        s@ == dec_seq(n as nat),
    decreases n,
{
    if n < 10 {
        digit_to_str(n).to_owned()
    } else {
        let mut s = u64_to_dec(n / 10);
        s.append(digit_to_str(n % 10));
        proof {
            assert(dec_seq((n / 10) as nat) + seq![digit_char((n % 10) as nat)] =~= dec_seq(
                n as nat,
            ));
        }
        s
    }
}

/// Reads a canonical decimal number at `pos`: a nonempty digit run with no
/// leading zero, ending at the first non-digit. Refuses a run that denotes
/// more than `u64::MAX`.
pub fn parse_number(s: &str, pos: usize) -> (r: Option<(u64, usize)>)
    requires
        pos <= s@.len(),
    ensures
        r matches Some((n, p)) ==> {
            &&& pos < p <= s@.len()
            &&& s@.subrange(pos as int, p as int) == dec_seq(n as nat)
            &&& (p == s@.len() || !is_digit(s@[p as int]))
        },
        forall|n: u64|
            num_at(s@, pos as int, n) ==> r == Some::<(u64, usize)>(
                (n, (pos + dec_seq(n as nat).len()) as usize),
            ),
{
    let len = s.unicode_len();
    if pos == len {
        proof {
            assert forall|n: u64| !num_at(s@, pos as int, n) by {
                lemma_dec_seq_shape(n as nat);
            }
        }
        return None;
    }
    let c0 = s.get_char(pos);
    let d0 = match digit_of_char(c0) {
        Some(d) => d,
        None => {
            proof {
                assert forall|n: u64| !num_at(s@, pos as int, n) by {
                    lemma_dec_seq_shape(n as nat);
                    if num_at(s@, pos as int, n) {
                        lemma_starts_with_index(s@, pos as int, dec_seq(n as nat), 0);
                    }
                }
            }
            return None;
        },
    };
    if c0 == '0' {
        // the single digit zero; a longer run with a leading zero is not canonical
        if pos + 1 < len && digit_of_char(s.get_char(pos + 1)).is_some() {
            proof {
                assert forall|n: u64| !num_at(s@, pos as int, n) by {
                    lemma_dec_seq_shape(n as nat);
                    if num_at(s@, pos as int, n) {
                        lemma_starts_with_index(s@, pos as int, dec_seq(n as nat), 0);
                        assert(dec_seq(n as nat)[0] == '0');
                        assert(n == 0);
                        assert(dec_seq(n as nat).len() == 1);
                        assert(is_digit(s@[pos + 1]));
                    }
                }
            }
            return None;
        }
        proof {
            assert(s@.subrange(pos as int, pos + 1) =~= seq![s@[pos as int]]);
            assert(s@.subrange(pos as int, pos + 1) =~= dec_seq(0));
            assert forall|n: u64|
                num_at(s@, pos as int, n) implies Some::<(u64, usize)>((0u64, (pos + 1) as usize))
                == Some::<(u64, usize)>((n, (pos + dec_seq(n as nat).len()) as usize)) by {
                lemma_dec_seq_shape(n as nat);
                lemma_starts_with_index(s@, pos as int, dec_seq(n as nat), 0);
                assert(dec_seq(n as nat)[0] == s@[pos as int]);
                assert(n == 0);
            }
        }
        return Some((0, pos + 1));
    }
    let mut acc: u64 = d0;
    let mut i: usize = pos + 1;
    proof {
        assert(s@.subrange(pos as int, pos + 1) =~= seq![s@[pos as int]]);
        assert(digits_val(Seq::<char>::empty()) == 0);
        assert(seq![c0].drop_last() =~= Seq::<char>::empty());
        assert(seq![c0].last() == c0);
        assert(digits_val(seq![c0]) == digit_val(c0));
    }
    loop
        invariant
            pos < i <= len,
            len == s@.len(),
            all_digits(s@.subrange(pos as int, i as int)),
            digits_val(s@.subrange(pos as int, i as int)) == acc as nat,
            s@[pos as int] != '0',
            c0 == s@[pos as int],
        ensures
            pos < i <= len,
            all_digits(s@.subrange(pos as int, i as int)),
            digits_val(s@.subrange(pos as int, i as int)) == acc as nat,
            i == len || !is_digit(s@[i as int]),
        decreases len - i,
    {
        if i == len {
            break;
        }
        let c = s.get_char(i);
        let d = match digit_of_char(c) {
            Some(d) => d,
            None => {
                break;
            },
        };
        // acc * 10 + d must stay within u64
        if acc > (u64::MAX - d) / 10 {
            proof {
                let run = s@.subrange(pos as int, i + 1);
                assert(run.drop_last() =~= s@.subrange(pos as int, i as int));
                assert(run.last() == s@[i as int]);
                assert(digits_val(run) == (acc as nat) * 10 + (d as nat));
                assert forall|j: int| 0 <= j < run.len() implies is_digit(#[trigger] run[j]) by {
                    if j < run.len() - 1 {
                        assert(s@.subrange(pos as int, i as int)[j] == run[j]);
                    }
                }
                lemma_fundamental_div_mod((u64::MAX - d) as int, 10);
                assert((acc as nat) * 10 + (d as nat) > u64::MAX) by (nonlinear_arith)
                    requires
                        acc as int > ((u64::MAX - d) as int) / 10,
                        (u64::MAX - d) as int == 10 * (((u64::MAX - d) as int) / 10) + (
                        (u64::MAX - d) as int) % 10,
                        ((u64::MAX - d) as int) % 10 < 10,
                        0 <= ((u64::MAX - d) as int) % 10,
                        d <= 9,
                ;
                assert forall|n: u64| !num_at(s@, pos as int, n) by {
                    if num_at(s@, pos as int, n) {
                        lemma_dec_seq_shape(n as nat);
                        let l = dec_seq(n as nat).len();
                        // the rendering covers at least the digits seen so far
                        if pos + l <= i as int {
                            assert(is_digit(s@[pos + l])) by {
                                assert(s@.subrange(pos as int, i + 1)[pos + l - pos] == s@[pos
                                    + l]);
                            }
                        }
                        assert(pos + l > i);
                        assert(run =~= dec_seq(n as nat).take(i + 1 - pos)) by {
                            assert forall|j: int| 0 <= j < run.len() implies run[j] == dec_seq(
                                n as nat,
                            ).take(i + 1 - pos)[j] by {
                                lemma_starts_with_index(s@, pos as int, dec_seq(n as nat), j);
                            }
                        }
                        lemma_digits_val_prefix(dec_seq(n as nat), i + 1 - pos);
                        lemma_dec_seq_val(n as nat);
                        assert(digits_val(run) <= n);
                    }
                }
            }
            return None;
        }
        proof {
            lemma_fundamental_div_mod((u64::MAX - d) as int, 10);
            assert((acc as nat) * 10 + (d as nat) <= u64::MAX) by (nonlinear_arith)
                requires
                    acc as int <= ((u64::MAX - d) as int) / 10,
                    (u64::MAX - d) as int == 10 * (((u64::MAX - d) as int) / 10) + ((u64::MAX
                        - d) as int) % 10,
                    0 <= ((u64::MAX - d) as int) % 10,
                    d <= 9,
            ;
            let run = s@.subrange(pos as int, i + 1);
            assert(run.drop_last() =~= s@.subrange(pos as int, i as int));
            assert(run.last() == s@[i as int]);
            assert forall|j: int| 0 <= j < run.len() implies is_digit(#[trigger] run[j]) by {
                if j < run.len() - 1 {
                    assert(s@.subrange(pos as int, i as int)[j] == run[j]);
                }
            }
        }
        acc = acc * 10 + d;
        i = i + 1;
    }
    proof {
        let run = s@.subrange(pos as int, i as int);
        assert(canonical_digits(run)) by {
            assert(run[0] == s@[pos as int]);
        }
        lemma_digits_canonical(run);
        assert(run == dec_seq(acc as nat));
        assert forall|n: u64|
            num_at(s@, pos as int, n) implies Some::<(u64, usize)>((acc, i))
            == Some::<(u64, usize)>((n, (pos + dec_seq(n as nat).len()) as usize)) by {
            lemma_dec_seq_shape(n as nat);
            let l = dec_seq(n as nat).len();
            if pos + l < i as int {
                // the rendering would stop inside the digit run
                assert(is_digit(s@[pos + l])) by {
                    assert(run[pos + l - pos] == s@[pos + l]);
                }
            }
            if pos + l > i as int {
                // the run would stop inside the rendering
                assert(is_digit(dec_seq(n as nat)[i - pos]));
                lemma_starts_with_index(s@, pos as int, dec_seq(n as nat), i - pos);
                assert(is_digit(s@[i as int]));
            }
            assert(pos + l == i as int);
            assert(run =~= dec_seq(n as nat)) by {
                assert forall|j: int| 0 <= j < run.len() implies run[j] == dec_seq(n as nat)[j] by {
                    lemma_starts_with_index(s@, pos as int, dec_seq(n as nat), j);
                }
            }
            lemma_dec_seq_val(n as nat);
        }
    }
    Some((acc, i))
}

} // verus!
