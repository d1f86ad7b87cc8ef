//! Directory conventions: data and hint file names, and the generations a
//! listing holds.

use vstd::prelude::*;
use vstd::string::StrSliceExecFns;
use vstd::string::StringExecFns;

verus! {

/// `c` is a decimal digit.
pub open spec fn is_digit_char(c: char) -> bool {
    48 <= c as u32 <= 57
}

/// The numeric value of a decimal digit.
pub open spec fn digit_val(c: char) -> int {
    c as u32 - 48
}

/// Every character of `s` is a decimal digit.
pub open spec fn all_digits(s: Seq<char>) -> bool {
    forall|i: int| 0 <= i < s.len() ==> is_digit_char(#[trigger] s[i])
}

/// The number that the decimal digit string `s` denotes.
pub open spec fn digits_val(s: Seq<char>) -> int
    decreases s.len(),
{
    if s.len() == 0 {
        0
    } else {
        digits_val(s.drop_last()) * 10 + digit_val(s.last())
    }
}

/// The number of leading decimal digits of `s`.
pub open spec fn digit_prefix_len(s: Seq<char>) -> int
    decreases s.len(),
{
    if s.len() == 0 {
        0
    } else if is_digit_char(s[0]) {
        1 + digit_prefix_len(s.subrange(1, s.len() as int))
    } else {
        0
    }
}

/// The character of a decimal digit value.
pub open spec fn digit_char(d: int) -> char {
    if d == 0 {
        '0'
    } else if d == 1 {
        '1'
    } else if d == 2 {
        '2'
    } else if d == 3 {
        '3'
    } else if d == 4 {
        '4'
    } else if d == 5 {
        '5'
    } else if d == 6 {
        '6'
    } else if d == 7 {
        '7'
    } else if d == 8 {
        '8'
    } else {
        '9'
    }
}

/// The decimal digit string of a non-negative number: "0" for zero, no
/// leading zeros otherwise.
pub open spec fn dec_digits(n: int) -> Seq<char>
    decreases n,
    when n >= 0
{
    if n < 10 {
        seq![digit_char(n)]
    } else {
        dec_digits(n / 10).push(digit_char(n % 10))
    }
}

/// The name of the data file of a generation.
pub open spec fn spec_data_file_name(generation: u64) -> Seq<char> {
    dec_digits(generation as int) + ".rustcask.data"@
}

/// The name of the hint file of a generation.
pub open spec fn spec_hint_file_name(generation: u64) -> Seq<char> {
    dec_digits(generation as int) + ".rustcask.hint"@
}

/// `s` is a data file name: one or more decimal digits followed by
/// ".rustcask.data".
pub open spec fn is_data_file_name(s: Seq<char>) -> bool {
    &&& s.len() > 14
    &&& s.subrange(s.len() - 14, s.len() as int) == ".rustcask.data"@
    &&& all_digits(s.subrange(0, s.len() - 14))
}

/// The generation a data or hint file name denotes: the value of its
/// leading digits.
pub open spec fn spec_generation_of(s: Seq<char>) -> int {
    digits_val(s.take(digit_prefix_len(s)))
}

/// The value of a digit string is non-negative.
pub proof fn lemma_digits_val_nonneg(s: Seq<char>)
    requires
        all_digits(s),
    ensures
        digits_val(s) >= 0,
    decreases s.len(),
{
    if s.len() > 0 {
        assert(all_digits(s.drop_last())) by {
            assert(forall|i: int| 0 <= i < s.len() - 1 ==> #[trigger] s.drop_last()[i] == s[i]);
        }
        lemma_digits_val_nonneg(s.drop_last());
        assert(is_digit_char(s[s.len() - 1]));
    }
}

/// Taking one more digit multiplies the value by ten and adds the digit.
pub proof fn lemma_digits_val_take_step(s: Seq<char>, i: int)
    requires
        0 <= i < s.len(),
    ensures
        digits_val(s.take(i + 1)) == digits_val(s.take(i)) * 10 + digit_val(s[i]),
{
    assert(s.take(i + 1).drop_last() =~= s.take(i));
    assert(s.take(i + 1).last() == s[i]);
}

/// The value of a prefix of a digit string is at most the whole value.
pub proof fn lemma_digits_val_prefix_le(s: Seq<char>, i: int, j: int)
    requires
        0 <= i <= j <= s.len(),
        forall|k: int| 0 <= k < j ==> is_digit_char(#[trigger] s[k]),
    ensures
        digits_val(s.take(i)) <= digits_val(s.take(j)),
    decreases j - i,
{
    if i < j {
        lemma_digits_val_prefix_le(s, i, j - 1);
        lemma_digits_val_take_step(s, j - 1);
        assert(all_digits(s.take(j - 1))) by {
            assert(forall|k: int| 0 <= k < j - 1 ==> #[trigger] s.take(j - 1)[k] == s[k]);
        }
        lemma_digits_val_nonneg(s.take(j - 1));
        assert(digit_val(s[j - 1]) >= 0);
        assert(digits_val(s.take(j - 1)) * 10 >= digits_val(s.take(j - 1)));
    }
}

/// Ten to the power `n`.
pub open spec fn pow10(n: int) -> int
    decreases n,
    when n >= 0
{
    if n <= 0 {
        1
    } else {
        10 * pow10(n - 1)
    }
}

/// A digit string's value is below ten to the power of its length.
pub proof fn lemma_digits_val_lt_pow10(s: Seq<char>)
    requires
        all_digits(s),
    ensures
        digits_val(s) < pow10(s.len() as int),
    decreases s.len(),
{
    if s.len() == 0 {
    } else {
        assert(all_digits(s.drop_last())) by {
            assert(forall|i: int| 0 <= i < s.len() - 1 ==> #[trigger] s.drop_last()[i] == s[i]);
        }
        lemma_digits_val_lt_pow10(s.drop_last());
        assert(is_digit_char(s[s.len() - 1]));
        assert(digit_val(s.last()) <= 9);
        assert(digits_val(s.drop_last()) * 10 <= (pow10(s.len() - 1) - 1) * 10);
    }
}

/// A digit string of at most nineteen digits has a value that fits in 64
/// bits; callers use this to meet the bound that `parse_generation_number`
/// and `list_generations` ask for.
pub proof fn lemma_digits_val_fits_u64(s: Seq<char>)
    requires
        all_digits(s),
        s.len() <= 19,
    ensures
        digits_val(s) < 0x1_0000_0000_0000_0000,
{
    lemma_digits_val_lt_pow10(s);
    assert(pow10(0) == 1);
    assert(pow10(1) == 10);
    assert(pow10(2) == 100);
    assert(pow10(3) == 1000);
    assert(pow10(4) == 10000);
    assert(pow10(5) == 100000);
    assert(pow10(6) == 1000000);
    assert(pow10(7) == 10000000);
    assert(pow10(8) == 100000000);
    assert(pow10(9) == 1000000000);
    assert(pow10(10) == 10000000000);
    assert(pow10(11) == 100000000000);
    assert(pow10(12) == 1000000000000);
    assert(pow10(13) == 10000000000000);
    assert(pow10(14) == 100000000000000);
    assert(pow10(15) == 1000000000000000);
    assert(pow10(16) == 10000000000000000);
    assert(pow10(17) == 100000000000000000);
    assert(pow10(18) == 1000000000000000000);
    assert(pow10(19) == 10000000000000000000);
    lemma_digits_val_prefix_le(s, s.len() as int, s.len() as int);
    assert(s.take(s.len() as int) =~= s);
    lemma_pow10_increases(s.len() as int, 19);
}

/// `pow10` grows with the exponent.
pub proof fn lemma_pow10_increases(i: int, j: int)
    requires
        0 <= i <= j,
    ensures
        pow10(i) <= pow10(j),
    decreases j - i,
{
    if i < j {
        lemma_pow10_increases(i, j - 1);
        assert(pow10(j) == 10 * pow10(j - 1));
        assert(pow10(j - 1) >= 1) by {
            lemma_pow10_pos(j - 1);
        }
    }
}

/// `pow10` is positive.
pub proof fn lemma_pow10_pos(n: int)
    requires
        0 <= n,
    ensures
        pow10(n) >= 1,
    decreases n,
{
    if n > 0 {
        lemma_pow10_pos(n - 1);
    }
}

/// A scan that stops at the first non-digit finds the digit prefix length.
pub proof fn lemma_digit_prefix_len_is(s: Seq<char>, i: int)
    requires
        0 <= i <= s.len(),
        forall|j: int| 0 <= j < i ==> is_digit_char(#[trigger] s[j]),
        i < s.len() ==> !is_digit_char(s[i]),
    ensures
        digit_prefix_len(s) == i,
    decreases s.len(),
{
    if s.len() == 0 {
    } else if i == 0 {
    } else {
        let t = s.subrange(1, s.len() as int);
        assert(forall|j: int| 0 <= j < i - 1 ==> #[trigger] t[j] == s[j + 1]);
        assert(i - 1 < t.len() ==> !is_digit_char(t[i - 1]));
        lemma_digit_prefix_len_is(t, i - 1);
    }
}

/// Every character before the digit prefix length is a digit.
pub proof fn lemma_digit_prefix_len_digits(s: Seq<char>)
    ensures
        0 <= digit_prefix_len(s) <= s.len(),
        forall|j: int| 0 <= j < digit_prefix_len(s) ==> is_digit_char(#[trigger] s[j]),
    decreases s.len(),
{
    if s.len() == 0 {
    } else if is_digit_char(s[0]) {
        let t = s.subrange(1, s.len() as int);
        lemma_digit_prefix_len_digits(t);
        assert(forall|j: int| 1 <= j < digit_prefix_len(s) ==> #[trigger] s[j] == t[j - 1]);
    }
}

/// If the first `i` characters are digits, the digit prefix is at least
/// that long.
pub proof fn lemma_digit_prefix_len_lower(s: Seq<char>, i: int)
    requires
        0 <= i <= s.len(),
        forall|j: int| 0 <= j < i ==> is_digit_char(#[trigger] s[j]),
    ensures
        digit_prefix_len(s) >= i,
    decreases s.len(),
{
    lemma_digit_prefix_len_digits(s);
    if i > 0 {
        assert(is_digit_char(s[0]));
        let t = s.subrange(1, s.len() as int);
        assert(forall|j: int| 0 <= j < i - 1 ==> #[trigger] t[j] == s[j + 1]);
        assert(forall|j: int| 0 <= j < i - 1 ==> is_digit_char(#[trigger] t[j]));
        lemma_digit_prefix_len_lower(t, i - 1);
        assert(digit_prefix_len(s) == 1 + digit_prefix_len(t));
    }
}

/// Check whether `file_name` names a data file: decimal digits followed by
/// ".rustcask.data".
pub fn is_data_file(file_name: &String) -> (r: bool)
    ensures
        r == is_data_file_name(file_name@),
{
    proof {
        reveal_strlit(".rustcask.data");
    }
    let s = file_name.as_str();
    let n = s.unicode_len();
    if n <= 14 {
        return false;
    }
    let suffix: &str = ".rustcask.data";
    let mut i: usize = 0;
    while i < 14
        invariant
            i <= 14,
            n == file_name@.len(),
            n > 14,
            suffix@ == ".rustcask.data"@,
            suffix@.len() == 14,
            s@ == file_name@,
            forall|j: int| 0 <= j < i ==> file_name@[n - 14 + j] == #[trigger] suffix@[j],
        decreases 14 - i,
    {
        if s.get_char(n - 14 + i) != suffix.get_char(i) {
            proof {
                assert(file_name@[n - 14 + i as int] != suffix@[i as int]);
                assert(!(file_name@.subrange(n as int - 14, n as int) =~= ".rustcask.data"@));
            }
            return false;
        }
        i = i + 1;
    }
    proof {
        assert(file_name@.subrange(n as int - 14, n as int) =~= ".rustcask.data"@);
    }
    let mut k: usize = 0;
    while k < n - 14
        invariant
            k <= n - 14,
            n == file_name@.len(),
            n > 14,
            s@ == file_name@,
            forall|j: int| 0 <= j < k ==> is_digit_char(#[trigger] file_name@[j]),
        decreases n - 14 - k,
    {
        let c = s.get_char(k);
        let cv = c as u32;
        if cv < 48 || cv > 57 {
            proof {
                assert(!is_digit_char(file_name@[k as int]));
                assert(file_name@.subrange(0, n - 14)[k as int] == file_name@[k as int]);
                assert(!all_digits(file_name@.subrange(0, n - 14)));
            }
            return false;
        }
        k = k + 1;
    }
    proof {
        assert(all_digits(file_name@.subrange(0, n - 14))) by {
            assert(forall|j: int| 0 <= j < n - 14 ==> is_digit_char(
                #[trigger] file_name@.subrange(0, n - 14)[j],
            ));
        }
    }
    true
}

/// Returns the generation that a data or hint file name denotes: the value
/// of the decimal digits before the first dot.
pub fn parse_generation_number(file_name: &String) -> (r: u64)
    requires
        digit_prefix_len(file_name@) >= 1,
        (digit_prefix_len(file_name@) == file_name@.len() || file_name@[digit_prefix_len(
            file_name@,
        )] == '.'),
        digits_val(file_name@.take(digit_prefix_len(file_name@))) < 0x1_0000_0000_0000_0000,
    ensures
        r as int == spec_generation_of(file_name@),
{
    let s = file_name.as_str();
    let n = s.unicode_len();
    let ghost dpl = digit_prefix_len(file_name@);
    proof {
        lemma_digit_prefix_len_digits(file_name@);
        assert(file_name@.take(0) =~= Seq::<char>::empty());
    }
    let mut generation: u64 = 0;
    let mut i: usize = 0;
    loop
        invariant
            0 <= i <= n,
            n == file_name@.len(),
            dpl == digit_prefix_len(file_name@),
            1 <= dpl <= n,
            (dpl == n || file_name@[dpl] == '.'),
            digits_val(file_name@.take(dpl)) < 0x1_0000_0000_0000_0000,
            i <= dpl,
            forall|j: int| 0 <= j < i ==> is_digit_char(#[trigger] file_name@[j]),
            generation as int == digits_val(file_name@.take(i as int)),
            s@ == file_name@,
        decreases n - i,
    {
        if i == n {
            proof {
                assert(i as int == dpl);
            }
            return generation;
        }
        let c = s.get_char(i);
        let cv = c as u32;
        if cv < 48 || cv > 57 {
            proof {
                lemma_digit_prefix_len_digits(file_name@);
                assert(i as int == dpl);
            }
            return generation;
        }
        proof {
            lemma_digit_prefix_len_digits(file_name@);
            lemma_digit_prefix_len_lower(file_name@, i as int + 1);
            lemma_digits_val_take_step(file_name@, i as int);
            lemma_digits_val_prefix_le(file_name@, i as int + 1, dpl);
            assert(all_digits(file_name@.take(i as int))) by {
                assert(forall|j: int| 0 <= j < i ==> #[trigger] file_name@.take(i as int)[j]
                    == file_name@[j]);
            }
            lemma_digits_val_nonneg(file_name@.take(i as int));
        }
        generation = generation * 10 + (cv - 48) as u64;
        i = i + 1;
    }
}

/// Build the decimal digit string of `n`.
fn u64_to_decimal(n: u64) -> (r: String)
    ensures
        r@ == dec_digits(n as int),
{
    let mut digits: Vec<u64> = Vec::new();
    let mut m = n;
    loop
        invariant_except_break
            m <= n,
            forall|i: int| 0 <= i < digits@.len() ==> #[trigger] digits@[i] < 10,
            (digits@.len() == 0 ==> m == n),
            (digits@.len() > 0 ==> m > 0 && dec_digits(n as int) == dec_digits(m as int)
                + rev_digit_chars(digits@)),
        ensures
            forall|i: int| 0 <= i < digits@.len() ==> #[trigger] digits@[i] < 10,
            dec_digits(n as int) == rev_digit_chars(digits@),
            digits@.len() > 0,
        decreases m,
    {
        let d = m % 10;
        let m2 = m / 10;
        let ghost olddigits = digits@;
        digits.push(d);
        proof {
            assert(rev_digit_chars(digits@) =~= seq![digit_char(d as int)] + rev_digit_chars(
                olddigits,
            ));
            if m2 > 0 {
                assert(dec_digits(m as int) == dec_digits(m2 as int).push(digit_char(m as int % 10)));
                if olddigits.len() == 0 {
                    assert(dec_digits(n as int) =~= dec_digits(m2 as int) + rev_digit_chars(
                        digits@,
                    ));
                } else {
                    assert(dec_digits(m2 as int).push(digit_char(d as int)) + rev_digit_chars(
                        olddigits,
                    ) =~= dec_digits(m2 as int) + rev_digit_chars(digits@));
                }
            } else {
                assert(dec_digits(m as int) =~= seq![digit_char(d as int)]);
                if olddigits.len() == 0 {
                    assert(dec_digits(n as int) =~= rev_digit_chars(digits@));
                } else {
                    assert(seq![digit_char(d as int)] + rev_digit_chars(olddigits)
                        =~= rev_digit_chars(digits@));
                }
            }
        }
        m = m2;
        if m == 0 {
            break;
        }
    }
    let mut out = String::from_str("");
    proof {
        reveal_strlit("");
        assert(out@ =~= rev_digit_chars(digits@).take(0));
    }
    let total = digits.len();
    let mut i: usize = total;
    while i > 0
        invariant
            i <= total,
            total == digits@.len(),
            forall|j: int| 0 <= j < digits@.len() ==> #[trigger] digits@[j] < 10,
            dec_digits(n as int) == rev_digit_chars(digits@),
            out@ == rev_digit_chars(digits@).take(total - i),
        decreases i,
    {
        i = i - 1;
        let d = digits[i];
        append_digit(&mut out, d);
        proof {
            assert(out@ =~= rev_digit_chars(digits@).take(total - i));
        }
    }
    proof {
        assert(rev_digit_chars(digits@).take(total as int) =~= rev_digit_chars(digits@));
    }
    out
}

/// The digit characters of `ds`, most significant last, read in reverse.
pub open spec fn rev_digit_chars(ds: Seq<u64>) -> Seq<char> {
    Seq::new(ds.len(), |i: int| digit_char(ds[ds.len() - 1 - i] as int))
}

/// Append the character of one decimal digit.
fn append_digit(out: &mut String, d: u64)
    requires
        d < 10,
    ensures
        final(out)@ == old(out)@.push(digit_char(d as int)),
{
    proof {
        reveal_strlit("0");
        reveal_strlit("1");
        reveal_strlit("2");
        reveal_strlit("3");
        reveal_strlit("4");
        reveal_strlit("5");
        reveal_strlit("6");
        reveal_strlit("7");
        reveal_strlit("8");
        reveal_strlit("9");
    }
    if d == 0 {
        out.append("0");
    } else if d == 1 {
        out.append("1");
    } else if d == 2 {
        out.append("2");
    } else if d == 3 {
        out.append("3");
    } else if d == 4 {
        out.append("4");
    } else if d == 5 {
        out.append("5");
    } else if d == 6 {
        out.append("6");
    } else if d == 7 {
        out.append("7");
    } else if d == 8 {
        out.append("8");
    } else {
        out.append("9");
    }
    proof {
        assert(final(out)@ =~= old(out)@.push(digit_char(d as int)));
    }
}

/// The file name of a generation's data file, relative to the store
/// directory.
pub fn data_file_path(generation: u64) -> (r: String)
    ensures
        r@ == spec_data_file_name(generation),
{
    let mut s = u64_to_decimal(generation);
    s.append(".rustcask.data");
    proof {
        reveal_strlit(".rustcask.data");
    }
    s
}

/// The file name of a generation's hint file, relative to the store
/// directory.
pub fn hint_file_path(generation: u64) -> (r: String)
    ensures
        r@ == spec_hint_file_name(generation),
{
    let mut s = u64_to_decimal(generation);
    s.append(".rustcask.hint");
    proof {
        reveal_strlit(".rustcask.hint");
    }
    s
}

/// The generations of the data files among `file_names`, in the order the
/// names are listed.
pub open spec fn generations_of(names: Seq<Seq<char>>) -> Seq<u64>
    decreases names.len(),
{
    if names.len() == 0 {
        Seq::empty()
    } else {
        let rest = generations_of(names.drop_last());
        if is_data_file_name(names.last()) {
            rest.push(spec_generation_of(names.last()) as u64)
        } else {
            rest
        }
    }
}

/// The names in `names`, as character strings.
pub open spec fn names_view(names: Seq<String>) -> Seq<Seq<char>> {
    Seq::new(names.len(), |i: int| names[i]@)
}

/// Returns the generations whose data files are present among the given
/// file names. Names that are not data file names are ignored. The result
/// is in file-listing order, not sorted.
pub fn list_generations(file_names: &Vec<String>) -> (r: Vec<u64>)
    requires
        forall|i: int| 0 <= i < file_names@.len() && is_data_file_name(
            (#[trigger] file_names@[i])@,
        ) ==> spec_generation_of(file_names@[i]@) < 0x1_0000_0000_0000_0000,
    ensures
        r@ == generations_of(names_view(file_names@)),
{
    let mut generations: Vec<u64> = Vec::new();
    let n = file_names.len();
    let ghost nv = names_view(file_names@);
    proof {
        assert(generations@ =~= generations_of(nv.take(0)));
    }
    let mut i: usize = 0;
    while i < n
        invariant
            i <= n,
            n == file_names@.len(),
            nv == names_view(file_names@),
            forall|j: int| 0 <= j < file_names@.len() && is_data_file_name(
                (#[trigger] file_names@[j])@,
            ) ==> spec_generation_of(file_names@[j]@) < 0x1_0000_0000_0000_0000,
            generations@ == generations_of(nv.take(i as int)),
        decreases n - i,
    {
        let name = &file_names[i];
        proof {
            assert(nv.take(i + 1).drop_last() =~= nv.take(i as int));
            assert(nv.take(i + 1).last() == name@);
        }
        if is_data_file(name) {
            proof {
                let s = name@;
                let d = s.len() - 14;
                assert(forall|j: int| 0 <= j < d ==> is_digit_char(#[trigger] s[j])) by {
                    assert(forall|j: int| 0 <= j < d ==> s.subrange(0, d)[j] == #[trigger] s[j]);
                }
                assert(s[d] == '.') by {
                    assert(s.subrange(s.len() - 14, s.len() as int)[0] == s[d]);
                    reveal_strlit(".rustcask.data");
                }
                lemma_digit_prefix_len_is(s, d);
            }
            let generation = parse_generation_number(name);
            generations.push(generation);
        }
        i = i + 1;
    }
    proof {
        assert(nv.take(n as int) =~= nv);
    }
    generations
}

} // verus!
