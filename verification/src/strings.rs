//! String utilities the core is built on: lexicographic comparison of
//! character sequences, decimal rendering and parsing of `u64` values, and
//! strand symbol normalization.

use vstd::prelude::*;

verus! {

/// The deep view of a list indexes to the deep views of its elements.
pub broadcast proof fn lemma_vec_deep_view_index<T: DeepView>(v: &Vec<T>, i: int)
    requires
        0 <= i < v@.len(),
    ensures
        #[trigger] v.deep_view()[i] == v@[i].deep_view(),
{
}

/// The deep view of a list has the list's length.
pub broadcast proof fn lemma_vec_deep_view_len<T: DeepView>(v: &Vec<T>)
    ensures
        #[trigger] v.deep_view().len() == v@.len(),
{
}

/// Lexicographic "less than or equal" over character sequences, ordering
/// characters by their scalar value.
pub open spec fn lex_le(a: Seq<char>, b: Seq<char>) -> bool
    decreases a.len(),
{
    if a.len() == 0 {
        true
    } else if b.len() == 0 {
        false
    } else if a[0] == b[0] {
        lex_le(a.drop_first(), b.drop_first())
    } else {
        (a[0] as u32) < (b[0] as u32)
    }
}

/// Comparing two sequences that agree on their first `i` characters reduces
/// to comparing the remainders.
proof fn lemma_lex_le_skip(a: Seq<char>, b: Seq<char>, i: int)
    requires
        0 <= i <= a.len(),
        i <= b.len(),
        a.take(i) == b.take(i),
    ensures
        lex_le(a, b) == lex_le(a.skip(i), b.skip(i)),
    decreases i,
{
    if i == 0 {
        assert(a.skip(0) =~= a);
        assert(b.skip(0) =~= b);
    } else {
        assert(a.take(i)[0] == a[0]);
        assert(b.take(i)[0] == b[0]);
        assert(a[0] == b[0]);
        assert(a.len() > 0 && b.len() > 0);
        assert(a.drop_first().take(i - 1) =~= b.drop_first().take(i - 1)) by {
            assert forall|k: int| 0 <= k < i - 1 implies #[trigger] a.drop_first()[k]
                == b.drop_first()[k] by {
                assert(0 <= k + 1 < i);
                assert(a.take(i)[k + 1] == a[k + 1]);
                assert(b.take(i)[k + 1] == b[k + 1]);
                assert(a.take(i)[k + 1] == b.take(i)[k + 1]);
                assert(a.drop_first()[k] == a[k + 1]);
                assert(b.drop_first()[k] == b[k + 1]);
            }
        }
        lemma_lex_le_skip(a.drop_first(), b.drop_first(), i - 1);
        assert(a.drop_first().skip(i - 1) =~= a.skip(i));
        assert(b.drop_first().skip(i - 1) =~= b.skip(i));
    }
}

/// The order is total.
pub proof fn lemma_lex_le_total(a: Seq<char>, b: Seq<char>)
    ensures
        lex_le(a, b) || lex_le(b, a),
    decreases a.len(),
{
    if a.len() == 0 {
        assert(lex_le(a, b));
    } else if b.len() == 0 {
        assert(lex_le(b, a));
    } else if a[0] == b[0] {
        lemma_lex_le_total(a.drop_first(), b.drop_first());
    } else {
        vstd::utf8::char_u32_cast(a[0], a[0] as u32);
        vstd::utf8::char_u32_cast(b[0], b[0] as u32);
        assert(a[0] as u32 != b[0] as u32);
    }
}

/// The order is transitive.
pub proof fn lemma_lex_le_trans(a: Seq<char>, b: Seq<char>, c: Seq<char>)
    requires
        lex_le(a, b),
        lex_le(b, c),
    ensures
        lex_le(a, c),
    decreases a.len(),
{
    if a.len() > 0 && b.len() > 0 && c.len() > 0 && a[0] == b[0] && b[0] == c[0] {
        lemma_lex_le_trans(a.drop_first(), b.drop_first(), c.drop_first());
    }
}

/// Executable lexicographic comparison of two string slices.
pub fn str_lex_le(a: &str, b: &str) -> (r: bool)
    ensures
        r == lex_le(a@, b@),
{
    let la: usize = a.unicode_len();
    let lb: usize = b.unicode_len();
    let mut i: usize = 0;
    loop
        invariant
            i <= la,
            i <= lb,
            la == a@.len(),
            lb == b@.len(),
            a@.take(i as int) == b@.take(i as int),
        decreases la - i,
    {
        if i == la {
            proof {
                lemma_lex_le_skip(a@, b@, i as int);
                assert(a@.skip(i as int).len() == 0);
            }
            return true;
        }
        if i == lb {
            proof {
                lemma_lex_le_skip(a@, b@, i as int);
                assert(b@.skip(i as int).len() == 0);
                assert(a@.skip(i as int).len() > 0);
            }
            return false;
        }
        let ca = a.get_char(i);
        let cb = b.get_char(i);
        if ca != cb {
            proof {
                lemma_lex_le_skip(a@, b@, i as int);
                assert(a@.skip(i as int)[0] == a@[i as int]);
                assert(b@.skip(i as int)[0] == b@[i as int]);
            }
            return (ca as u32) < (cb as u32);
        }
        proof {
            assert(a@.take(i + 1) =~= b@.take(i + 1)) by {
                assert forall|k: int| 0 <= k < i + 1 implies #[trigger] a@.take(i + 1)[k] == b@.take(
                    i + 1,
                )[k] by {
                    if k < i {
                        assert(a@.take(i as int)[k] == b@.take(i as int)[k]);
                    }
                }
            }
        }
        i = i + 1;
    }
}

/// The character for one decimal digit.
pub open spec fn dec_digit_char(d: int) -> char {
    if d == 0 {
        '0'
    } else if d == 1 {
        '1'
    } else if d == 2 {
        '2'
    } else if d == 3 {
        '3'
    } else if d == 4 {
        '4'
    } else if d == 5 {
        '5'
    } else if d == 6 {
        '6'
    } else if d == 7 {
        '7'
    } else if d == 8 {
        '8'
    } else {
        '9'
    }
}

/// Decimal rendering of a natural number, most significant digit first.
pub open spec fn dec_seq(n: nat) -> Seq<char>
    decreases n,
{
    if n < 10 {
        seq![dec_digit_char(n as int)]
    } else {
        dec_seq(n / 10).push(dec_digit_char((n % 10) as int))
    }
}

pub open spec fn is_dec_digit(c: char) -> bool {
    48 <= c as u32 <= 57
}

pub open spec fn all_dec_digits(s: Seq<char>) -> bool {
    forall|i: int| 0 <= i < s.len() ==> is_dec_digit(#[trigger] s[i])
}

/// The numeric value of a digit sequence, most significant digit first.
pub open spec fn dec_val(s: Seq<char>) -> int
    decreases s.len(),
{
    if s.len() == 0 {
        0
    } else {
        dec_val(s.drop_last()) * 10 + (s.last() as u32 - 48)
    }
}

/// What `parse_u64` returns: the value of a nonempty all-digit sequence that
/// fits in a `u64`, and nothing otherwise.
pub open spec fn parse_u64_spec(s: Seq<char>) -> Option<u64> {
    if s.len() > 0 && all_dec_digits(s) && dec_val(s) <= u64::MAX {
        Some(dec_val(s) as u64)
    } else {
        None
    }
}

proof fn lemma_dec_digit_char_val(d: int)
    requires
        0 <= d <= 9,
    ensures
        is_dec_digit(dec_digit_char(d)),
        dec_digit_char(d) as u32 == 48 + d,
{
}

/// A rendered number is a nonempty digit sequence whose value is the number.
pub proof fn lemma_dec_seq_val(n: nat)
    ensures
        dec_seq(n).len() >= 1,
        all_dec_digits(dec_seq(n)),
        dec_val(dec_seq(n)) == n,
    decreases n,
{
    if n < 10 {
        lemma_dec_digit_char_val(n as int);
        let w = dec_seq(n);
        assert(w =~= seq![dec_digit_char(n as int)]);
        assert(w.drop_last() =~= Seq::<char>::empty());
        assert(dec_val(w.drop_last()) == 0);
        assert(w.last() == dec_digit_char(n as int));
        assert(dec_val(w) == 0 * 10 + (dec_digit_char(n as int) as u32 - 48));
    } else {
        lemma_dec_seq_val(n / 10);
        lemma_dec_digit_char_val((n % 10) as int);
        let p = dec_seq(n / 10);
        let w = p.push(dec_digit_char((n % 10) as int));
        assert(w.drop_last() =~= p);
        assert(w.last() == dec_digit_char((n % 10) as int));
        assert(dec_val(w) == (n / 10) * 10 + n % 10);
        assert((n / 10) * 10 + n % 10 == n) by {
            vstd::arithmetic::div_mod::lemma_fundamental_div_mod(n as int, 10);
        }
        assert forall|i: int| 0 <= i < w.len() implies is_dec_digit(#[trigger] w[i]) by {
            if i < p.len() {
                assert(w[i] == p[i]);
            }
        }
    }
}

/// Digit sequences have nonnegative values.
proof fn lemma_dec_val_nonneg(s: Seq<char>)
    requires
        all_dec_digits(s),
    ensures
        dec_val(s) >= 0,
    decreases s.len(),
{
    if s.len() > 0 {
        assert(all_dec_digits(s.drop_last())) by {
            assert(forall|i: int| 0 <= i < s.len() - 1 ==> s.drop_last()[i] == #[trigger] s[i]);
        }
        lemma_dec_val_nonneg(s.drop_last());
        assert(is_dec_digit(s.last()));
    }
}

proof fn lemma_dec_val_take_succ(s: Seq<char>, i: int)
    requires
        0 <= i < s.len(),
    ensures
        dec_val(s.take(i + 1)) == dec_val(s.take(i)) * 10 + (s[i] as u32 - 48),
{
    assert(s.take(i + 1).drop_last() =~= s.take(i));
    assert(s.take(i + 1).last() == s[i]);
}

/// Extending an all-digit prefix never shrinks its value.
proof fn lemma_dec_val_take_monotone(s: Seq<char>, i: int, j: int)
    requires
        0 <= i <= j <= s.len(),
        all_dec_digits(s),
    ensures
        dec_val(s.take(i)) <= dec_val(s.take(j)),
    decreases j - i,
{
    if i < j {
        lemma_dec_val_take_monotone(s, i, j - 1);
        lemma_dec_val_take_succ(s, j - 1);
        assert(all_dec_digits(s.take(j - 1))) by {
            assert(forall|k: int| 0 <= k < j - 1 ==> s.take(j - 1)[k] == #[trigger] s[k]);
        }
        lemma_dec_val_nonneg(s.take(j - 1));
        assert(is_dec_digit(s[j - 1]));
    }
}

/// One decimal digit as a string.
fn digit_string(d: u64) -> (r: String)
    requires
        d < 10,
    ensures
        r@ =~= seq![dec_digit_char(d as int)],
{
    if d == 0 {
        proof {
            reveal_strlit("0");
        }
        String::from_str("0")
    } else if d == 1 {
        proof {
            reveal_strlit("1");
        }
        String::from_str("1")
    } else if d == 2 {
        proof {
            reveal_strlit("2");
        }
        String::from_str("2")
    } else if d == 3 {
        proof {
            reveal_strlit("3");
        }
        String::from_str("3")
    } else if d == 4 {
        proof {
            reveal_strlit("4");
        }
        String::from_str("4")
    } else if d == 5 {
        proof {
            reveal_strlit("5");
        }
        String::from_str("5")
    } else if d == 6 {
        proof {
            reveal_strlit("6");
        }
        String::from_str("6")
    } else if d == 7 {
        proof {
            reveal_strlit("7");
        }
        String::from_str("7")
    } else if d == 8 {
        proof {
            reveal_strlit("8");
        }
        String::from_str("8")
    } else {
        proof {
            reveal_strlit("9");
        }
        String::from_str("9")
    }
}

/// Renders a `u64` in decimal.
pub fn u64_to_string(n: u64) -> (r: String)
    ensures
        r@ == dec_seq(n as nat),
    decreases n,
{
    if n < 10 {
        let r = digit_string(n);
        proof {
            assert(r@ =~= dec_seq(n as nat));
        }
        r
    } else {
        let mut s = u64_to_string(n / 10);
        let d = digit_string(n % 10);
        s.append(d.as_str());
        proof {
            assert(s@ =~= dec_seq((n / 10) as nat).push(dec_digit_char((n % 10) as int)));
        }
        s
    }
}

/// Parses a decimal `u64`: accepts exactly the nonempty all-digit strings
/// whose value fits.
pub fn parse_u64(s: &str) -> (r: Option<u64>)
    ensures
        r == parse_u64_spec(s@),
{
    let n: usize = s.unicode_len();
    if n == 0 {
        return None;
    }
    let mut acc: u64 = 0;
    let mut i: usize = 0;
    while i < n
        invariant
            0 <= i <= n,
            n == s@.len(),
            all_dec_digits(s@.take(i as int)),
            acc == dec_val(s@.take(i as int)),
        decreases n - i,
    {
        let c = s.get_char(i);
        let cv = c as u32;
        if cv < 48 || cv > 57 {
            assert(!is_dec_digit(s@[i as int]));
            return None;
        }
        let d: u64 = (cv - 48) as u64;
        proof {
            lemma_dec_val_take_succ(s@, i as int);
        }
        if acc > (u64::MAX - d) / 10 {
            proof {
                assert(dec_val(s@.take(i as int + 1)) > u64::MAX);
                if s@.len() > 0 && all_dec_digits(s@) && dec_val(s@) <= u64::MAX {
                    lemma_dec_val_take_monotone(s@, i as int + 1, s@.len() as int);
                    assert(s@.take(s@.len() as int) =~= s@);
                }
            }
            return None;
        }
        acc = acc * 10 + d;
        proof {
            assert(all_dec_digits(s@.take(i as int + 1))) by {
                assert(forall|k: int| 0 <= k < i + 1 ==> #[trigger] s@.take(i as int + 1)[k] == s@[
                    k
                ]);
            }
        }
        i = i + 1;
    }
    proof {
        assert(s@.take(n as int) =~= s@);
    }
    Some(acc)
}

/// Rendering then parsing gives the number back.
pub proof fn lemma_u64_dec_round_trip(n: u64)
    ensures
        parse_u64_spec(dec_seq(n as nat)) == Some(n),
{
    lemma_dec_seq_val(n as nat);
}

/// The strand symbol a record's strand field denotes: `+` and `-` stand for
/// themselves, anything else means "no strand" and renders as `.`.
pub open spec fn norm_strand(s: Seq<char>) -> Seq<char> {
    if s =~= seq!['+'] || s =~= seq!['-'] {
        s
    } else {
        seq!['.']
    }
}

/// A `.` string, the "absent" marker for strand and score fields.
pub fn dot_string() -> (r: String)
    ensures
        r@ =~= seq!['.'],
{
    proof {
        reveal_strlit(".");
    }
    String::from_str(".")
}

/// Executable strand normalization.
pub fn strand_norm(s: &String) -> (r: String)
    ensures
        r@ == norm_strand(s@),
{
    let n: usize = s.as_str().unicode_len();
    if n == 1 {
        let c = s.as_str().get_char(0);
        if c == '+' || c == '-' {
            proof {
                assert(s@ =~= seq![s@[0]]);
            }
            return s.clone();
        }
    }
    proof {
        assert(!(s@ =~= seq!['+']) && !(s@ =~= seq!['-']));
    }
    dot_string()
}

/// Whether two strands denote the same symbol.
pub fn strand_eq(a: &String, b: &String) -> (r: bool)
    ensures
        r == (norm_strand(a@) == norm_strand(b@)),
{
    let na = strand_norm(a);
    let nb = strand_norm(b);
    na.eq(&nb)
}

/// Membership of a string in a list of strings, at the view level.
pub open spec fn seq_contains_str(vs: Seq<Seq<char>>, x: Seq<char>) -> bool {
    exists|i: int| 0 <= i < vs.len() && vs[i] == x
}

/// Executable membership test.
pub fn vec_contains_string(vs: &Vec<String>, x: &String) -> (r: bool)
    ensures
        r == seq_contains_str(vs.deep_view(), x@),
{
    let mut i: usize = 0;
    while i < vs.len()
        invariant
            0 <= i <= vs.len(),
            forall|k: int| 0 <= k < i ==> vs.deep_view()[k] != x@,
        decreases vs.len() - i,
    {
        if vs[i].eq(x) {
            assert(vs.deep_view()[i as int] == x@);
            return true;
        }
        i = i + 1;
    }
    false
}

/// A deep copy of a list of strings.
pub fn copy_strings(vs: &Vec<String>) -> (r: Vec<String>)
    ensures
        r.deep_view() == vs.deep_view(),
{
    let mut out: Vec<String> = Vec::new();
    let mut i: usize = 0;
    while i < vs.len()
        invariant
            0 <= i <= vs.len(),
            out.len() == i,
            forall|k: int| 0 <= k < i ==> #[trigger] out.deep_view()[k] == vs.deep_view()[k],
        decreases vs.len() - i,
    {
        let ghost pv = out@;
        let ghost pdv = out.deep_view();
        out.push(vs[i].clone());
        proof {
            assert forall|k: int| 0 <= k < i + 1 implies #[trigger] out.deep_view()[k]
                == vs.deep_view()[k] by {
                assert(out.deep_view()[k] == out@[k].deep_view());
                if k < i {
                    assert(out@[k] == pv[k]);
                    assert(pdv[k] == pv[k].deep_view());
                } else {
                    assert(out@[k] == vs@[i as int]);
                }
            }
        }
        i = i + 1;
    }
    proof {
        assert(out.deep_view() =~= vs.deep_view());
    }
    out
}

} // verus!
