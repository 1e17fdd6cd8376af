//! Number names in American English.
//!
//! The core of the library: a specification of the English cardinal and
//! ordinal name of every unsigned integer, executable encoders proved to
//! match it, and the laws the naming scheme obeys.
use crate::format::Format;
use vstd::arithmetic::div_mod::{
    lemma_breakdown, lemma_div_basics, lemma_div_decreases, lemma_div_denominator,
    lemma_div_non_zero, lemma_fundamental_div_mod, lemma_fundamental_div_mod_converse,
    lemma_mod_bound, lemma_multiply_divide_lt, lemma_small_div_converse,
};
use vstd::arithmetic::mul::lemma_mul_strictly_positive;
use vstd::prelude::*;
use vstd::string::*;

verus! {

// ---------------------------------------------------------------------------
// Word tables, as specification functions over character sequences.
// ---------------------------------------------------------------------------

/// The irregular base words for 0 through 19 (the teens are not composable
/// from a tens word and a ones word).
pub open spec fn ones_name(d: int) -> Seq<char>
    recommends
        0 <= d <= 19,
{
    if d == 0 {
        "zero"@
    } else if d == 1 {
        "one"@
    } else if d == 2 {
        "two"@
    } else if d == 3 {
        "three"@
    } else if d == 4 {
        "four"@
    } else if d == 5 {
        "five"@
    } else if d == 6 {
        "six"@
    } else if d == 7 {
        "seven"@
    } else if d == 8 {
        "eight"@
    } else if d == 9 {
        "nine"@
    } else if d == 10 {
        "ten"@
    } else if d == 11 {
        "eleven"@
    } else if d == 12 {
        "twelve"@
    } else if d == 13 {
        "thirteen"@
    } else if d == 14 {
        "fourteen"@
    } else if d == 15 {
        "fifteen"@
    } else if d == 16 {
        "sixteen"@
    } else if d == 17 {
        "seventeen"@
    } else if d == 18 {
        "eighteen"@
    } else if d == 19 {
        "nineteen"@
    } else {
        Seq::empty()
    }
}

/// The words for the multiples of ten from 20 through 90, indexed by the
/// tens digit.
pub open spec fn tens_name(t: int) -> Seq<char>
    recommends
        2 <= t <= 9,
{
    if t == 2 {
        "twenty"@
    } else if t == 3 {
        "thirty"@
    } else if t == 4 {
        "forty"@
    } else if t == 5 {
        "fifty"@
    } else if t == 6 {
        "sixty"@
    } else if t == 7 {
        "seventy"@
    } else if t == 8 {
        "eighty"@
    } else if t == 9 {
        "ninety"@
    } else {
        Seq::empty()
    }
}

/// The order name attached to magnitude group `g` (group 0 is the units
/// group and carries no order name), with its leading space.
pub open spec fn order_name(g: int) -> Seq<char>
    recommends
        0 <= g <= 6,
{
    if g == 1 {
        " thousand"@
    } else if g == 2 {
        " million"@
    } else if g == 3 {
        " billion"@
    } else if g == 4 {
        " trillion"@
    } else if g == 5 {
        " quadrillion"@
    } else if g == 6 {
        " quintillion"@
    } else {
        Seq::empty()
    }
}

/// The separator between a tens word and a trailing ones word: a dash when
/// dashes are enabled, a space otherwise.
pub open spec fn tens_sep(dashes: bool) -> Seq<char> {
    if dashes {
        "-"@
    } else {
        " "@
    }
}

/// The separator between two rendered magnitude groups: a comma when commas
/// are enabled, a space otherwise.
pub open spec fn group_sep(commas: bool) -> Seq<char> {
    if commas {
        ","@
    } else {
        " "@
    }
}

// ---------------------------------------------------------------------------
// The name of a number, built up tier by tier.
// ---------------------------------------------------------------------------

/// The name of a value below one hundred: a direct table word below twenty,
/// the tens word alone for a multiple of ten, and otherwise the tens word
/// joined to the ones word by the configured separator.
pub open spec fn two_digit_name(v: int, dashes: bool) -> Seq<char>
    recommends
        1 <= v <= 99,
{
    if v < 20 {
        ones_name(v)
    } else if v % 10 == 0 {
        tens_name(v / 10)
    } else {
        tens_name(v / 10) + tens_sep(dashes) + ones_name(v % 10)
    }
}

/// The name of a value below one thousand: the word "hundred" appears
/// exactly when the hundreds digit is nonzero, and the sub-hundred remainder
/// is appended only when it is nonzero.
pub open spec fn three_digit_name(v: int, dashes: bool) -> Seq<char>
    recommends
        1 <= v <= 999,
{
    if v < 100 {
        two_digit_name(v, dashes)
    } else if v % 100 == 0 {
        ones_name(v / 100) + " hundred"@
    } else {
        ones_name(v / 100) + " hundred "@ + two_digit_name(v % 100, dashes)
    }
}

/// The phrase a single nonzero magnitude group contributes: its sub-thousand
/// name followed by the group's order name.
pub open spec fn group_phrase(v: int, g: int, dashes: bool) -> Seq<char>
    recommends
        1 <= v <= 999,
        0 <= g <= 6,
{
    three_digit_name(v, dashes) + order_name(g)
}

/// 1000 raised to the `k`th power: the value of the lowest number whose
/// least significant magnitude group sits at group position `k`.
pub open spec fn pow1000(k: int) -> int
    decreases k,
{
    if k <= 0 {
        1
    } else {
        1000 * pow1000(k - 1)
    }
}

/// The name of `n * 1000^g` for positive `n`: the base-1000 digits of `n`
/// are named most significant first, each nonzero group followed by its
/// order name; a group whose value is zero contributes nothing at all.
pub open spec fn groups_name(n: int, g: int, commas: bool, dashes: bool) -> Seq<char>
    recommends
        0 <= n,
        0 <= g,
    decreases n,
{
    if n <= 0 {
        Seq::empty()
    } else if n < 1000 {
        group_phrase(n, g, dashes)
    } else if n % 1000 == 0 {
        groups_name(n / 1000, g + 1, commas, dashes)
    } else {
        groups_name(n / 1000, g + 1, commas, dashes) + group_sep(commas) + group_phrase(
            n % 1000,
            g,
            dashes,
        )
    }
}

/// The full cardinal name of `n` under the given punctuation toggles.
/// Zero is named directly; the group decomposition would render it empty.
pub open spec fn cardinal_name(n: int, commas: bool, dashes: bool) -> Seq<char>
    recommends
        0 <= n,
{
    if n == 0 {
        "zero"@
    } else {
        groups_name(n, 0, commas, dashes)
    }
}

// ---------------------------------------------------------------------------
// Executable word tables.
// ---------------------------------------------------------------------------

/// The base word for a value below twenty.
fn ones_word(d: u64) -> (r: &'static str)
    requires
        d <= 19,
    ensures
        r@ == ones_name(d as int),
{
    match d {
        0 => "zero",
        1 => "one",
        2 => "two",
        3 => "three",
        4 => "four",
        5 => "five",
        6 => "six",
        7 => "seven",
        8 => "eight",
        9 => "nine",
        10 => "ten",
        11 => "eleven",
        12 => "twelve",
        13 => "thirteen",
        14 => "fourteen",
        15 => "fifteen",
        16 => "sixteen",
        17 => "seventeen",
        18 => "eighteen",
        _ => "nineteen",
    }
}

/// The word for a multiple of ten, given the tens digit.
fn tens_word(t: u64) -> (r: &'static str)
    requires
        2 <= t <= 9,
    ensures
        r@ == tens_name(t as int),
{
    match t {
        2 => "twenty",
        3 => "thirty",
        4 => "forty",
        5 => "fifty",
        6 => "sixty",
        7 => "seventy",
        8 => "eighty",
        _ => "ninety",
    }
}

/// The order name for magnitude group `g`, with its leading space.
fn order_word(g: u64) -> (r: &'static str)
    requires
        g <= 6,
    ensures
        r@ == order_name(g as int),
{
    proof {
        reveal_strlit("");
        assert(""@ =~= Seq::<char>::empty());
    }
    match g {
        0 => "",
        1 => " thousand",
        2 => " million",
        3 => " billion",
        4 => " trillion",
        5 => " quadrillion",
        _ => " quintillion",
    }
}

// ---------------------------------------------------------------------------
// The ordinal transformation: a lexical rewrite of the final word.
// ---------------------------------------------------------------------------

/// A character that separates words in a rendered name: the space, the dash
/// of a tens compound, or the comma between magnitude groups.
pub open spec fn is_break_char(c: char) -> bool {
    c == ' ' || c == '-' || c == ','
}

/// The position where the final word of a rendered name starts: immediately
/// after the last separator character, or 0 when there is none.
pub open spec fn last_word_start(s: Seq<char>) -> int
    decreases s.len(),
{
    if s.len() == 0 {
        0
    } else if is_break_char(s[s.len() - 1]) {
        s.len() as int
    } else {
        last_word_start(s.drop_last())
    }
}

/// The table of cardinal words whose ordinal form is irregular; every word
/// not listed here takes the regular rule of appending "th".
pub open spec fn irregular_ordinal(w: Seq<char>) -> Option<Seq<char>> {
    if w == "one"@ {
        Some("first"@)
    } else if w == "two"@ {
        Some("second"@)
    } else if w == "three"@ {
        Some("third"@)
    } else if w == "five"@ {
        Some("fifth"@)
    } else if w == "eight"@ {
        Some("eighth"@)
    } else if w == "nine"@ {
        Some("ninth"@)
    } else if w == "twelve"@ {
        Some("twelfth"@)
    } else if w == "twenty"@ {
        Some("twentieth"@)
    } else if w == "thirty"@ {
        Some("thirtieth"@)
    } else if w == "forty"@ {
        Some("fortieth"@)
    } else if w == "fifty"@ {
        Some("fiftieth"@)
    } else if w == "sixty"@ {
        Some("sixtieth"@)
    } else if w == "seventy"@ {
        Some("seventieth"@)
    } else if w == "eighty"@ {
        Some("eightieth"@)
    } else if w == "ninety"@ {
        Some("ninetieth"@)
    } else {
        None
    }
}

/// Turn a rendered cardinal name into the matching ordinal name: the final
/// word is replaced by its irregular ordinal form when the table lists one,
/// and otherwise the whole name simply gains the suffix "th". Every
/// character before the final word is kept unchanged.
pub open spec fn ordinalize_name(s: Seq<char>) -> Seq<char> {
    let b = last_word_start(s);
    match irregular_ordinal(s.subrange(b, s.len() as int)) {
        Some(w) => s.subrange(0, b) + w,
        None => s + "th"@,
    }
}

/// The full ordinal name of `n` under the given punctuation toggles: the
/// cardinal name with its final word transformed.
pub open spec fn ordinal_name(n: int, commas: bool, dashes: bool) -> Seq<char>
    recommends
        0 <= n,
{
    ordinalize_name(cardinal_name(n, commas, dashes))
}

/// The start of the final word never lies outside the string.
proof fn lemma_last_word_start_le(s: Seq<char>)
    ensures
        0 <= last_word_start(s) <= s.len(),
    decreases s.len(),
{
    if s.len() > 0 && !is_break_char(s[s.len() - 1]) {
        lemma_last_word_start_le(s.drop_last());
    }
}

/// A position that sits right after a separator (or at 0), with no
/// separator anywhere at or beyond it, is where the final word starts.
proof fn lemma_last_word_start_at(s: Seq<char>, i: int)
    requires
        0 <= i <= s.len(),
        forall|j: int| i <= j < s.len() ==> !is_break_char(s[j]),
        i > 0 ==> is_break_char(s[i - 1]),
    ensures
        last_word_start(s) == i,
    decreases s.len() - i,
{
    if i == s.len() {
        if s.len() > 0 {
            assert(is_break_char(s[s.len() - 1]));
        }
    } else {
        assert(!is_break_char(s[s.len() - 1]));
        let t = s.drop_last();
        assert(forall|j: int| i <= j < t.len() ==> t[j] == s[j]);
        if i > 0 {
            assert(t[i - 1] == s[i - 1]);
        }
        lemma_last_word_start_at(t, i);
    }
}

// ---------------------------------------------------------------------------
// Arithmetic facts about the group decomposition.
// ---------------------------------------------------------------------------

/// Powers of 1000 are positive.
proof fn lemma_pow1000_pos(k: int)
    ensures
        pow1000(k) > 0,
    decreases k,
{
    if k > 0 {
        lemma_pow1000_pos(k - 1);
        lemma_mul_strictly_positive(1000, pow1000(k - 1));
    }
}

/// Powers of 1000 grow with the exponent.
proof fn lemma_pow1000_increases(a: int, b: int)
    requires
        a <= b,
    ensures
        pow1000(a) <= pow1000(b),
    decreases b - a,
{
    if a < b && b > 0 {
        lemma_pow1000_increases(a, b - 1);
        lemma_pow1000_pos(b - 1);
        assert(pow1000(b) == 1000 * pow1000(b - 1));
        assert(1000 * pow1000(b - 1) >= pow1000(b - 1)) by (nonlinear_arith)
            requires
                pow1000(b - 1) > 0,
        ;
    }
}

/// Every `u64` value lies below `1000^7`, so seven order names (units
/// through quintillions) cover the whole input domain: no representable
/// magnitude is out of range of the word tables.
pub proof fn lemma_u64_within_orders(n: u64)
    ensures
        (n as int) < pow1000(7),
{
    reveal_with_fuel(pow1000, 8);
    assert(pow1000(7) == 1000000000000000000000);
}

/// Prepending one nonzero magnitude group on top of an already-decomposed
/// lower part: the name of `v * 1000^g + low` is the name of `v` at group
/// position `l + g`, followed (when the lower part is nonzero) by a group
/// separator and the lower part's own name.
proof fn lemma_groups_prepend(v: int, g: int, low: int, l: int, commas: bool, dashes: bool)
    requires
        1 <= v <= 999,
        0 <= g,
        0 <= l,
        0 <= low < pow1000(g),
    ensures
        low == 0 ==> groups_name(v * pow1000(g) + low, l, commas, dashes) == groups_name(
            v,
            l + g,
            commas,
            dashes,
        ),
        low != 0 ==> groups_name(v * pow1000(g) + low, l, commas, dashes) == groups_name(
            v,
            l + g,
            commas,
            dashes,
        ) + group_sep(commas) + groups_name(low, l, commas, dashes),
    decreases g,
{
    lemma_pow1000_pos(g);
    let m = v * pow1000(g) + low;
    if g == 0 {
        assert(pow1000(0) == 1);
        assert(low == 0);
        assert(v * pow1000(g) == v) by (nonlinear_arith)
            requires
                pow1000(g) == 1,
        ;
        assert(m == v);
    } else {
        let p1 = pow1000(g - 1);
        lemma_pow1000_pos(g - 1);
        assert(pow1000(g) == 1000 * p1);
        assert(v * pow1000(g) == 1000 * (v * p1)) by (nonlinear_arith)
            requires
                pow1000(g) == 1000 * p1,
        ;
        lemma_fundamental_div_mod(low, 1000);
        lemma_mod_bound(low, 1000);
        assert(m == 1000 * (v * p1 + low / 1000) + low % 1000) by (nonlinear_arith)
            requires
                m == 1000 * (v * p1) + low,
                low == 1000 * (low / 1000) + low % 1000,
        ;
        lemma_fundamental_div_mod_converse(m, 1000, v * p1 + low / 1000, low % 1000);
        assert(m / 1000 == v * p1 + low / 1000);
        assert(m % 1000 == low % 1000);
        assert(low / 1000 < p1) by {
            lemma_multiply_divide_lt(low, 1000, p1);
        }
        assert(low / 1000 >= 0) by {
            lemma_mod_bound(low, 1000);
            lemma_fundamental_div_mod(low, 1000);
            if low / 1000 < 0 {
                lemma_mul_strictly_positive(1000, -(low / 1000));
            }
        }
        lemma_mul_strictly_positive(v, pow1000(g));
        assert(m >= 1000) by (nonlinear_arith)
            requires
                v >= 1,
                pow1000(g) >= 1000,
                low >= 0,
                m == v * pow1000(g) + low,
        ;
        lemma_groups_prepend(v, g - 1, low / 1000, l + 1, commas, dashes);
        if low % 1000 == 0 {
            // The lowest group of `m` is zero and contributes nothing.
            assert(groups_name(m, l, commas, dashes) == groups_name(
                m / 1000,
                l + 1,
                commas,
                dashes,
            ));
            if low == 0 {
                assert(low / 1000 == 0);
            } else {
                assert(low >= 1000);
                lemma_div_non_zero(low, 1000);
                assert(groups_name(low, l, commas, dashes) == groups_name(
                    low / 1000,
                    l + 1,
                    commas,
                    dashes,
                ));
            }
        } else {
            // The lowest group of `m` is `low % 1000` and is rendered last.
            assert(low != 0);
            if low < 1000 {
                assert(low / 1000 == 0) by {
                    lemma_small_div_converse(low, 1000);
                    lemma_fundamental_div_mod(low, 1000);
                    assert(low % 1000 == low);
                }
                assert(low % 1000 == low);
                assert(groups_name(low, l, commas, dashes) == group_phrase(low, l, dashes));
                assert(groups_name(m, l, commas, dashes) == groups_name(v, l + g, commas, dashes)
                    + group_sep(commas) + groups_name(low, l, commas, dashes));
            } else {
                lemma_div_non_zero(low, 1000);
                assert(groups_name(low, l, commas, dashes) == groups_name(
                    low / 1000,
                    l + 1,
                    commas,
                    dashes,
                ) + group_sep(commas) + group_phrase(low % 1000, l, dashes));
                assert(groups_name(m, l, commas, dashes) =~= groups_name(v, l + g, commas, dashes)
                    + group_sep(commas) + groups_name(low, l, commas, dashes));
            }
        }
    }
}

/// Render a single magnitude group's value, 1 through 999.
fn format_num(num: u64, fmt: &Format) -> (r: String)
    requires
        1 <= num <= 999,
    ensures
        r@ == three_digit_name(num as int, fmt.use_dashes),
    decreases num,
{
    if num < 20 {
        String::from_str(ones_word(num))
    } else if num < 100 {
        let tens: &'static str = tens_word(num / 10);
        if num % 10 == 0 {
            String::from_str(tens)
        } else {
            let sep: &'static str = if fmt.use_dashes {
                "-"
            } else {
                " "
            };
            let r = String::from_str(tens).concat(sep).concat(ones_word(num % 10));
            proof {
                assert(r@ =~= two_digit_name(num as int, fmt.use_dashes));
            }
            r
        }
    } else {
        let high = String::from_str(ones_word(num / 100));
        if num % 100 == 0 {
            let r = high.concat(" hundred");
            proof {
                assert(r@ =~= three_digit_name(num as int, fmt.use_dashes));
            }
            r
        } else {
            let low = format_num(num % 100, fmt);
            let r = high.concat(" hundred ").concat(low.as_str());
            proof {
                assert(r@ =~= three_digit_name(num as int, fmt.use_dashes));
            }
            r
        }
    }
}

// ---------------------------------------------------------------------------
// Laws of the naming scheme.
// ---------------------------------------------------------------------------

/// Every word in the 0-19 table is a real word.
proof fn lemma_ones_nonempty(d: int)
    requires
        0 <= d <= 19,
    ensures
        ones_name(d).len() > 0,
{
    reveal_strlit("zero");
    reveal_strlit("one");
    reveal_strlit("two");
    reveal_strlit("three");
    reveal_strlit("four");
    reveal_strlit("five");
    reveal_strlit("six");
    reveal_strlit("seven");
    reveal_strlit("eight");
    reveal_strlit("nine");
    reveal_strlit("ten");
    reveal_strlit("eleven");
    reveal_strlit("twelve");
    reveal_strlit("thirteen");
    reveal_strlit("fourteen");
    reveal_strlit("fifteen");
    reveal_strlit("sixteen");
    reveal_strlit("seventeen");
    reveal_strlit("eighteen");
    reveal_strlit("nineteen");
}

/// Every word in the tens table is a real word.
proof fn lemma_tens_nonempty(t: int)
    requires
        2 <= t <= 9,
    ensures
        tens_name(t).len() > 0,
{
    reveal_strlit("twenty");
    reveal_strlit("thirty");
    reveal_strlit("forty");
    reveal_strlit("fifty");
    reveal_strlit("sixty");
    reveal_strlit("seventy");
    reveal_strlit("eighty");
    reveal_strlit("ninety");
}

/// The name of a nonzero sub-thousand value is never empty.
proof fn lemma_three_digit_nonempty(v: int, dashes: bool)
    requires
        1 <= v <= 999,
    ensures
        three_digit_name(v, dashes).len() > 0,
{
    if v < 20 {
        lemma_ones_nonempty(v);
    } else if v < 100 {
        lemma_tens_nonempty(v / 10);
    } else {
        lemma_ones_nonempty(v / 100);
    }
}

/// The group decomposition of a positive value always yields at least one
/// phrase.
proof fn lemma_groups_nonempty(n: int, g: int, commas: bool, dashes: bool)
    requires
        n > 0,
    ensures
        groups_name(n, g, commas, dashes).len() > 0,
    decreases n,
{
    if n < 1000 {
        lemma_three_digit_nonempty(n, dashes);
    } else {
        if n % 1000 == 0 {
            lemma_div_non_zero(n, 1000);
            lemma_groups_nonempty(n / 1000, g + 1, commas, dashes);
        } else {
            lemma_mod_bound(n, 1000);
            lemma_three_digit_nonempty(n % 1000, dashes);
        }
    }
}

/// Totality: every non-negative magnitude has a non-empty cardinal name,
/// whatever the punctuation toggles.
pub proof fn lemma_cardinal_total(n: int, commas: bool, dashes: bool)
    requires
        n >= 0,
    ensures
        cardinal_name(n, commas, dashes).len() > 0,
{
    if n == 0 {
        reveal_strlit("zero");
    } else {
        lemma_groups_nonempty(n, 0, commas, dashes);
    }
}

/// Single-word boundary: for 0 through 19 the cardinal name is exactly the
/// irregular table entry, under every punctuation setting.
pub proof fn lemma_single_word_names(n: int, commas: bool, dashes: bool)
    requires
        0 <= n <= 19,
    ensures
        cardinal_name(n, commas, dashes) == ones_name(n),
{
    if n > 0 {
        assert(three_digit_name(n, dashes) + order_name(0) =~= ones_name(n));
    }
}

/// Tens composition: between 20 and 99 the cardinal name is the tens word,
/// joined to the ones word by the tens separator exactly when the ones
/// digit is nonzero.
pub proof fn lemma_tens_composition(n: int, commas: bool, dashes: bool)
    requires
        20 <= n <= 99,
    ensures
        n % 10 == 0 ==> cardinal_name(n, commas, dashes) == tens_name(n / 10),
        n % 10 != 0 ==> cardinal_name(n, commas, dashes) == tens_name(n / 10) + tens_sep(dashes)
            + ones_name(n % 10),
{
    assert(three_digit_name(n, dashes) + order_name(0) =~= three_digit_name(n, dashes));
}

/// No word of the tens table contains a dash.
proof fn lemma_tens_no_dash(t: int)
    requires
        2 <= t <= 9,
    ensures
        !tens_name(t).contains('-'),
{
    reveal_strlit("twenty");
    reveal_strlit("thirty");
    reveal_strlit("forty");
    reveal_strlit("fifty");
    reveal_strlit("sixty");
    reveal_strlit("seventy");
    reveal_strlit("eighty");
    reveal_strlit("ninety");
}

/// With dashes enabled, the name of a value between 20 and 99 contains a
/// dash exactly when the ones digit is nonzero.
pub proof fn lemma_dash_exactly_with_ones(n: int, commas: bool)
    requires
        20 <= n <= 99,
    ensures
        cardinal_name(n, commas, true).contains('-') <==> n % 10 != 0,
{
    lemma_tens_composition(n, commas, true);
    lemma_tens_no_dash(n / 10);
    reveal_strlit("-");
    if n % 10 != 0 {
        let w = tens_name(n / 10) + tens_sep(true) + ones_name(n % 10);
        assert(w[tens_name(n / 10).len() as int] == '-');
        assert(w.contains('-'));
    }
}

/// Hundred insertion and omission: the word "hundred" is rendered exactly
/// when the hundreds digit is nonzero, and the sub-hundred remainder is
/// appended exactly when it is nonzero.
pub proof fn lemma_hundred_word(n: int, commas: bool, dashes: bool)
    requires
        1 <= n <= 999,
    ensures
        n < 100 ==> cardinal_name(n, commas, dashes) == two_digit_name(n, dashes),
        n >= 100 && n % 100 == 0 ==> cardinal_name(n, commas, dashes) == ones_name(n / 100)
            + " hundred"@,
        n >= 100 && n % 100 != 0 ==> cardinal_name(n, commas, dashes) == ones_name(n / 100)
            + " hundred "@ + two_digit_name(n % 100, dashes),
{
    assert(three_digit_name(n, dashes) + order_name(0) =~= three_digit_name(n, dashes));
}

/// Zero-group skipping: a magnitude group whose value is zero contributes
/// no words and no order name at all.
pub proof fn lemma_zero_group_skipped(n: int, g: int, commas: bool, dashes: bool)
    requires
        n >= 1000,
        n % 1000 == 0,
    ensures
        groups_name(n, g, commas, dashes) == groups_name(n / 1000, g + 1, commas, dashes),
{
}

/// Ordinal locality: the ordinal transformation leaves every character
/// before the final word of the cardinal name unchanged.
pub proof fn lemma_ordinal_locality(s: Seq<char>)
    ensures
        ordinalize_name(s).subrange(0, last_word_start(s)) == s.subrange(0, last_word_start(s)),
{
    lemma_last_word_start_le(s);
    let b = last_word_start(s);
    match irregular_ordinal(s.subrange(b, s.len() as int)) {
        Some(w) => {
            assert((s.subrange(0, b) + w).subrange(0, b) =~= s.subrange(0, b));
        },
        None => {
            assert((s + "th"@).subrange(0, b) =~= s.subrange(0, b));
        },
    }
}

/// Two renderings agree on everything but punctuation: they have the same
/// length, word characters match exactly, and separator characters line up
/// with separator characters.
pub open spec fn same_words(a: Seq<char>, b: Seq<char>) -> bool {
    &&& a.len() == b.len()
    &&& forall|i: int|
        0 <= i < a.len() ==> ((is_break_char(#[trigger] a[i]) <==> is_break_char(b[i])) && (
        !is_break_char(a[i]) ==> a[i] == b[i]))
}

/// `same_words` is preserved by concatenation.
proof fn lemma_same_words_concat(a1: Seq<char>, b1: Seq<char>, a2: Seq<char>, b2: Seq<char>)
    requires
        same_words(a1, b1),
        same_words(a2, b2),
    ensures
        same_words(a1 + a2, b1 + b2),
{
    assert forall|i: int| 0 <= i < (a1 + a2).len() implies ((is_break_char(
        #[trigger] (a1 + a2)[i],
    ) <==> is_break_char((b1 + b2)[i])) && (!is_break_char((a1 + a2)[i]) ==> (a1 + a2)[i] == (b1
        + b2)[i])) by {
        if i < a1.len() {
            assert((a1 + a2)[i] == a1[i]);
            assert((b1 + b2)[i] == b1[i]);
        } else {
            assert((a1 + a2)[i] == a2[i - a1.len()]);
            assert((b1 + b2)[i] == b2[i - b1.len()]);
        }
    }
}

/// Either tens separator is a single separator character.
proof fn lemma_tens_sep_same_words(d1: bool, d2: bool)
    ensures
        same_words(tens_sep(d1), tens_sep(d2)),
{
    reveal_strlit("-");
    reveal_strlit(" ");
}

/// Either group separator is a single separator character.
proof fn lemma_group_sep_same_words(c1: bool, c2: bool)
    ensures
        same_words(group_sep(c1), group_sep(c2)),
{
    reveal_strlit(",");
    reveal_strlit(" ");
}

/// A sequence always has the same words as itself.
proof fn lemma_same_words_refl(a: Seq<char>)
    ensures
        same_words(a, a),
{
}

/// The punctuation toggles never change the words of a sub-hundred name.
proof fn lemma_two_digit_same_words(v: int, d1: bool, d2: bool)
    requires
        1 <= v <= 99,
    ensures
        same_words(two_digit_name(v, d1), two_digit_name(v, d2)),
{
    if v >= 20 && v % 10 != 0 {
        lemma_same_words_refl(tens_name(v / 10));
        lemma_tens_sep_same_words(d1, d2);
        lemma_same_words_concat(
            tens_name(v / 10),
            tens_name(v / 10),
            tens_sep(d1),
            tens_sep(d2),
        );
        lemma_same_words_refl(ones_name(v % 10));
        lemma_same_words_concat(
            tens_name(v / 10) + tens_sep(d1),
            tens_name(v / 10) + tens_sep(d2),
            ones_name(v % 10),
            ones_name(v % 10),
        );
    } else {
        lemma_same_words_refl(two_digit_name(v, d1));
    }
}

/// The punctuation toggles never change the words of a sub-thousand name.
proof fn lemma_three_digit_same_words(v: int, d1: bool, d2: bool)
    requires
        1 <= v <= 999,
    ensures
        same_words(three_digit_name(v, d1), three_digit_name(v, d2)),
{
    if v < 100 {
        lemma_two_digit_same_words(v, d1, d2);
    } else if v % 100 == 0 {
        lemma_same_words_refl(three_digit_name(v, d1));
    } else {
        lemma_same_words_refl(ones_name(v / 100) + " hundred "@);
        lemma_two_digit_same_words(v % 100, d1, d2);
        lemma_same_words_concat(
            ones_name(v / 100) + " hundred "@,
            ones_name(v / 100) + " hundred "@,
            two_digit_name(v % 100, d1),
            two_digit_name(v % 100, d2),
        );
        assert(ones_name(v / 100) + " hundred "@ + two_digit_name(v % 100, d1) =~= (ones_name(
            v / 100,
        ) + " hundred "@) + two_digit_name(v % 100, d1));
    }
}

/// The punctuation toggles never change the words of a group phrase.
proof fn lemma_group_phrase_same_words(v: int, g: int, d1: bool, d2: bool)
    requires
        1 <= v <= 999,
    ensures
        same_words(group_phrase(v, g, d1), group_phrase(v, g, d2)),
{
    lemma_three_digit_same_words(v, d1, d2);
    lemma_same_words_refl(order_name(g));
    lemma_same_words_concat(
        three_digit_name(v, d1),
        three_digit_name(v, d2),
        order_name(g),
        order_name(g),
    );
}

/// The punctuation toggles never change the words of a group decomposition.
proof fn lemma_groups_same_words(n: int, g: int, c1: bool, d1: bool, c2: bool, d2: bool)
    requires
        n > 0,
    ensures
        same_words(groups_name(n, g, c1, d1), groups_name(n, g, c2, d2)),
    decreases n,
{
    if n < 1000 {
        lemma_group_phrase_same_words(n, g, d1, d2);
    } else if n % 1000 == 0 {
        lemma_div_non_zero(n, 1000);
        lemma_groups_same_words(n / 1000, g + 1, c1, d1, c2, d2);
    } else {
        lemma_div_non_zero(n, 1000);
        lemma_mod_bound(n, 1000);
        lemma_groups_same_words(n / 1000, g + 1, c1, d1, c2, d2);
        lemma_group_sep_same_words(c1, c2);
        lemma_same_words_concat(
            groups_name(n / 1000, g + 1, c1, d1),
            groups_name(n / 1000, g + 1, c2, d2),
            group_sep(c1),
            group_sep(c2),
        );
        lemma_group_phrase_same_words(n % 1000, g, d1, d2);
        lemma_same_words_concat(
            groups_name(n / 1000, g + 1, c1, d1) + group_sep(c1),
            groups_name(n / 1000, g + 1, c2, d2) + group_sep(c2),
            group_phrase(n % 1000, g, d1),
            group_phrase(n % 1000, g, d2),
        );
    }
}

/// Changing the comma or dash toggles changes only punctuation characters:
/// the words of the cardinal name, and their order, stay exactly the same.
pub proof fn lemma_toggles_only_punctuation(n: int, c1: bool, d1: bool, c2: bool, d2: bool)
    requires
        n >= 0,
    ensures
        same_words(cardinal_name(n, c1, d1), cardinal_name(n, c2, d2)),
{
    if n == 0 {
        lemma_same_words_refl("zero"@);
    } else {
        lemma_groups_same_words(n, 0, c1, d1, c2, d2);
    }
}

/// Render the cardinal name of `num`: decompose it into base-1000 groups
/// from the least significant upward, name each nonzero group at its own
/// magnitude level, and join the phrases most significant first.
fn encode(num: u64, fmt: Format) -> (r: String)
    ensures
        r@ == cardinal_name(num as int, fmt.use_commas, fmt.use_dashes),
{
    if num == 0 {
        return String::from_str("zero");
    }
    let mut n: u64 = num;
    let mut g: u64 = 0;
    let mut first: bool = true;
    let mut acc: String = String::new();
    proof {
        lemma_pow1000_pos(0);
        lemma_div_basics(num as int);
        lemma_fundamental_div_mod(num as int, 1);
    }
    while n > 0
        invariant
            g <= 7,
            pow1000(g as int) > 0,
            n as int == num as int / pow1000(g as int),
            acc@ == groups_name(
                num as int % pow1000(g as int),
                0,
                fmt.use_commas,
                fmt.use_dashes,
            ),
            first == (num as int % pow1000(g as int) == 0),
            n > 0 ==> g <= 6,
            num > 0,
        decreases n,
    {
        let ghost p: int = pow1000(g as int);
        let ghost low: int = num as int % p;
        let v: u64 = n % 1000;
        proof {
            lemma_pow1000_pos(g as int + 1);
            lemma_mod_bound(num as int, p);
            lemma_mod_bound(n as int, 1000);
            lemma_div_decreases(n as int, 1000);
            lemma_div_denominator(num as int, p, 1000);
            assert(pow1000(g as int + 1) == 1000 * p);
            lemma_breakdown(num as int, p, 1000);
            assert(num as int % (p * 1000) == p * (v as int) + low);
            assert(num as int % pow1000(g as int + 1) == (v as int) * p + low);
        }
        n = n / 1000;
        if v > 0 {
            let piece = format_num(v, &fmt).concat(order_word(g));
            assert(piece@ == group_phrase(v as int, g as int, fmt.use_dashes));
            proof {
                lemma_groups_prepend(
                    v as int,
                    g as int,
                    low,
                    0,
                    fmt.use_commas,
                    fmt.use_dashes,
                );
                lemma_mul_strictly_positive(v as int, p);
            }
            if first {
                acc = piece;
                proof {
                    assert(groups_name(v as int, g as int, fmt.use_commas, fmt.use_dashes)
                        == group_phrase(v as int, g as int, fmt.use_dashes));
                }
            } else {
                let sep: &'static str = if fmt.use_commas {
                    ","
                } else {
                    " "
                };
                let joined = piece.concat(sep).concat(acc.as_str());
                proof {
                    assert(joined@ =~= groups_name(
                        (v as int) * p + low,
                        0,
                        fmt.use_commas,
                        fmt.use_dashes,
                    ));
                }
                acc = joined;
            }
            first = false;
        }
        g = g + 1;
        proof {
            if v == 0 {
                assert((v as int) * p == 0) by (nonlinear_arith)
                    requires
                        v as int == 0,
                ;
            }
            if n > 0 {
                lemma_u64_within_orders(num);
                if g > 6 {
                    assert(num as int / pow1000(g as int) > 0);
                    lemma_fundamental_div_mod(num as int, pow1000(g as int));
                    lemma_mod_bound(num as int, pow1000(g as int));
                    lemma_mul_strictly_positive(
                        pow1000(g as int),
                        num as int / pow1000(g as int),
                    );
                    assert(num as int >= pow1000(g as int)) by (nonlinear_arith)
                        requires
                            num as int == pow1000(g as int) * (num as int / pow1000(g as int))
                                + num as int % pow1000(g as int),
                            num as int / pow1000(g as int) >= 1,
                            num as int % pow1000(g as int) >= 0,
                            pow1000(g as int) > 0,
                    ;
                    assert(pow1000(g as int) >= pow1000(7)) by {
                        lemma_pow1000_increases(7, g as int);
                    }
                    assert(false);
                }
            }
        }
    }
    proof {
        lemma_fundamental_div_mod(num as int, pow1000(g as int));
        assert(num as int / pow1000(g as int) == 0);
        assert(pow1000(g as int) * (num as int / pow1000(g as int)) == 0) by (nonlinear_arith)
            requires
                num as int / pow1000(g as int) == 0,
        ;
        assert(num as int % pow1000(g as int) == num as int);
    }
    acc
}

/// Return the cardinal number name for a given number with a given format
/// in American English.
pub fn cardinal_with_format(num: u64, fmt: Format) -> (r: String)
    ensures
        r@ == cardinal_name(num as int, fmt.use_commas, fmt.use_dashes),
{
    encode(num, fmt)
}

/// Compare two string slices character by character.
fn str_eq(a: &str, b: &str) -> (r: bool)
    ensures
        r == (a@ == b@),
{
    let alen = a.unicode_len();
    let blen = b.unicode_len();
    if alen != blen {
        return false;
    }
    let mut i: usize = 0;
    while i < alen
        invariant
            alen as int == a@.len(),
            blen as int == b@.len(),
            alen == blen,
            i <= alen,
            forall|j: int| 0 <= j < i ==> a@[j] == b@[j],
        decreases alen - i,
    {
        if a.get_char(i) != b.get_char(i) {
            return false;
        }
        i = i + 1;
    }
    proof {
        assert(a@ =~= b@);
    }
    true
}

/// Whether the character at position `j` separates two words.
fn break_at(s: &str, j: usize) -> (r: bool)
    requires
        j < s@.len(),
    ensures
        r == is_break_char(s@[j as int]),
{
    let c = s.get_char(j);
    c == ' ' || c == '-' || c == ','
}

/// Look the final word of a cardinal name up in the irregular table.
fn irregular_word(w: &str) -> (r: Option<&'static str>)
    ensures
        match r {
            Some(o) => irregular_ordinal(w@) == Some(o@),
            None => irregular_ordinal(w@) is None,
        },
{
    if str_eq(w, "one") {
        Some("first")
    } else if str_eq(w, "two") {
        Some("second")
    } else if str_eq(w, "three") {
        Some("third")
    } else if str_eq(w, "five") {
        Some("fifth")
    } else if str_eq(w, "eight") {
        Some("eighth")
    } else if str_eq(w, "nine") {
        Some("ninth")
    } else if str_eq(w, "twelve") {
        Some("twelfth")
    } else if str_eq(w, "twenty") {
        Some("twentieth")
    } else if str_eq(w, "thirty") {
        Some("thirtieth")
    } else if str_eq(w, "forty") {
        Some("fortieth")
    } else if str_eq(w, "fifty") {
        Some("fiftieth")
    } else if str_eq(w, "sixty") {
        Some("sixtieth")
    } else if str_eq(w, "seventy") {
        Some("seventieth")
    } else if str_eq(w, "eighty") {
        Some("eightieth")
    } else if str_eq(w, "ninety") {
        Some("ninetieth")
    } else {
        None
    }
}

/// Turn a rendered cardinal name into the matching ordinal name: locate the
/// start of the final word (right after the last space, dash or comma),
/// replace that word by its irregular ordinal form when the table lists
/// one, and otherwise append "th" to the whole name.
pub fn ordinalize(cardinal: String) -> (r: String)
    ensures
        r@ == ordinalize_name(cardinal@),
{
    let len = cardinal.as_str().unicode_len();
    let mut i: usize = len;
    while i > 0 && !break_at(cardinal.as_str(), i - 1)
        invariant
            i <= len,
            len as int == cardinal@.len(),
            forall|j: int| i <= j < len ==> !is_break_char(cardinal@[j]),
        decreases i,
    {
        i = i - 1;
    }
    proof {
        lemma_last_word_start_at(cardinal@, i as int);
    }
    let last = cardinal.as_str().substring_char(i, len);
    match irregular_word(last) {
        Some(o) => {
            let prefix = cardinal.as_str().substring_char(0, i);
            String::from_str(prefix).concat(o)
        },
        None => cardinal.concat("th"),
    }
}

/// Return the ordinal number name for a given number with a given format
/// in American English: the cardinal name with its final word replaced by
/// the ordinal form.
pub fn ordinal_with_format(num: u64, fmt: Format) -> (r: String)
    ensures
        r@ == ordinal_name(num as int, fmt.use_commas, fmt.use_dashes),
{
    let cardinal = cardinal_with_format(num, fmt);
    ordinalize(cardinal)
}

} // verus!

