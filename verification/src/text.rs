//! Character-level text model shared by the fusion, history and codec
//! modules: decimal rendering and parsing of `u32` values, and the
//! well-formedness predicates for the text fields that the row codec
//! serializes.

use vstd::prelude::*;

verus! {

/// True for the ten ASCII decimal digit characters.
pub open spec fn is_digit(c: char) -> bool {
    '0' <= c && c <= '9'
}

/// Numeric value of a decimal digit character.
pub open spec fn digit_val(c: char) -> nat {
    (c as nat - '0' as nat) as nat
}

/// True when every character of `s` is a decimal digit.
pub open spec fn all_digits(s: Seq<char>) -> bool {
    forall|i: int| 0 <= i < s.len() ==> is_digit(#[trigger] s[i])
}

/// The number denoted by a digit sequence, most significant digit first.
pub open spec fn dec_value(s: Seq<char>) -> nat
    decreases s.len(),
{
    if s.len() == 0 {
        0
    } else {
        dec_value(s.drop_last()) * 10 + digit_val(s.last())
    }
}

/// The digit character for a value below ten.
pub open spec fn digit_char(d: nat) -> char {
    ('0' as nat + d) as char
}

/// Canonical decimal rendering of a number: no sign, no leading zero.
pub open spec fn dec_of(n: nat) -> Seq<char>
    decreases n,
{
    if n < 10 {
        seq![digit_char(n)]
    } else {
        dec_of(n / 10).push(digit_char(n % 10))
    }
}

/// True for the canonical decimal rendering of some `u32`: non-empty, all
/// digits, no leading zero, and value within `u32` range.
pub open spec fn is_canon_dec_u32(s: Seq<char>) -> bool {
    &&& s.len() > 0
    &&& all_digits(s)
    &&& (s.len() > 1 ==> s[0] != '0')
    &&& dec_value(s) <= u32::MAX
}

pub proof fn lemma_digit_char_val(d: nat)
    requires
        d < 10,
    ensures
        is_digit(digit_char(d)),
        digit_val(digit_char(d)) == d,
        d > 0 ==> digit_char(d) != '0',
{
}

/// `dec_of` renders every number as a canonical digit string whose value is
/// the number itself.
pub proof fn lemma_dec_of_canon(n: nat)
    requires
        n <= u32::MAX,
    ensures
        is_canon_dec_u32(dec_of(n)),
        dec_value(dec_of(n)) == n,
        dec_of(n)[0] != '0' || n == 0,
    decreases n,
{
    if n < 10 {
        lemma_digit_char_val(n);
        let s = dec_of(n);
        assert(s =~= seq![digit_char(n)]);
        assert(s.drop_last() =~= Seq::<char>::empty());
        assert(dec_value(s) == dec_value(s.drop_last()) * 10 + digit_val(s.last()));
        assert(s[0] == digit_char(n));
        assert(forall|i: int| 0 <= i < s.len() ==> is_digit(#[trigger] s[i]));
    } else {
        lemma_dec_of_canon(n / 10);
        lemma_digit_char_val(n % 10);
        let p = dec_of(n / 10);
        let s = dec_of(n);
        assert(s =~= p.push(digit_char(n % 10)));
        assert(s.drop_last() =~= p);
        assert(s.last() == digit_char(n % 10));
        assert(dec_value(s) == dec_value(p) * 10 + n % 10);
        assert(dec_value(s) == (n / 10) * 10 + n % 10);
        assert((n / 10) * 10 + n % 10 == n) by (nonlinear_arith);
        assert(s[0] == p[0]);
        assert(n / 10 >= 1);
        assert(s[0] != '0');
        assert forall|i: int| 0 <= i < s.len() implies is_digit(#[trigger] s[i]) by {
            if i < s.len() - 1 {
                assert(s[i] == p[i]);
                assert(is_digit(p[i]));
            } else {
                assert(s[i] == digit_char(n % 10));
            }
        }
        assert(all_digits(s));
    }
}

/// A canonical digit string is the rendering of its own value: `dec_of` and
/// `dec_value` are mutually inverse on canonical strings.
pub proof fn lemma_canon_dec_round(s: Seq<char>)
    requires
        is_canon_dec_u32(s),
    ensures
        dec_of(dec_value(s)) == s,
    decreases s.len(),
{
    if s.len() == 1 {
        assert(dec_value(s.drop_last()) == 0);
        assert(dec_value(s) == digit_val(s[0]));
        assert(dec_value(s) < 10);
        assert(digit_char(digit_val(s[0])) == s[0]);
        assert(dec_of(dec_value(s)) =~= s);
    } else {
        let p = s.drop_last();
        assert(all_digits(p));
        assert(dec_value(s) == dec_value(p) * 10 + digit_val(s.last()));
        assert(dec_value(p) * 10 <= dec_value(s)) by (nonlinear_arith)
            requires
                dec_value(s) == dec_value(p) * 10 + digit_val(s.last()),
                digit_val(s.last()) >= 0,
        {
        }
        assert(dec_value(p) <= u32::MAX);
        assert(p[0] == s[0]);
        assert(dec_value(p) >= 1) by {
            lemma_no_leading_zero_positive(p);
        }
        lemma_canon_dec_round(p);
        let n = dec_value(s);
        assert(digit_val(s.last()) < 10);
        assert(n / 10 == dec_value(p) && n % 10 == digit_val(s.last())) by (nonlinear_arith)
            requires
                n == dec_value(p) * 10 + digit_val(s.last()),
                0 <= digit_val(s.last()) < 10,
        {
        }
        assert(n >= 10) by (nonlinear_arith)
            requires
                n == dec_value(p) * 10 + digit_val(s.last()),
                dec_value(p) >= 1,
                digit_val(s.last()) >= 0,
        {
        }
        assert(dec_of(n) =~= dec_of(n / 10).push(digit_char(n % 10)));
        lemma_digit_char_val(digit_val(s.last()));
        assert(digit_char(digit_val(s.last())) == s.last());
        assert(dec_of(n) =~= p.push(s.last()));
        assert(p.push(s.last()) =~= s);
    }
}

/// A non-empty all-digit string without a leading zero denotes at least 1
/// unless it is the single digit zero.
pub proof fn lemma_no_leading_zero_positive(s: Seq<char>)
    requires
        s.len() > 0,
        all_digits(s),
        s[0] != '0',
    ensures
        dec_value(s) >= 1,
    decreases s.len(),
{
    if s.len() == 1 {
        assert(digit_val(s[0]) >= 1);
    } else {
        let p = s.drop_last();
        lemma_no_leading_zero_positive(p);
        assert(dec_value(s) == dec_value(p) * 10 + digit_val(s.last()));
        assert(dec_value(p) * 10 >= 10) by (nonlinear_arith)
            requires
                dec_value(p) >= 1,
        {
        }
    }
}

/// Extending a digit string to the right can only increase its value.
pub proof fn lemma_dec_value_prefix_le(s: Seq<char>, k: int)
    requires
        0 <= k <= s.len(),
    ensures
        dec_value(s.subrange(0, k)) <= dec_value(s),
    decreases s.len() - k,
{
    if k < s.len() {
        let t = s.subrange(0, k + 1);
        assert(t.drop_last() =~= s.subrange(0, k));
        assert(dec_value(t) == dec_value(s.subrange(0, k)) * 10 + digit_val(s[k]));
        assert(dec_value(s.subrange(0, k)) <= dec_value(s.subrange(0, k)) * 10) by (nonlinear_arith)
            requires
                dec_value(s.subrange(0, k)) >= 0,
        {
        }
        lemma_dec_value_prefix_le(s, k + 1);
        assert(s.subrange(0, s.len() as int) =~= s);
    } else {
        assert(s.subrange(0, k) =~= s);
    }
}

/// Appends the canonical decimal rendering of `n` to `out`.
pub fn push_dec_u32(n: u32, out: &mut Vec<char>)
    ensures
        final(out)@ == old(out)@ + dec_of(n as nat),
    decreases n,
{
    if n < 10 {
        let d: u8 = n as u8 + 48;
        out.push(d as char);
        proof {
            assert(d as char == digit_char(n as nat));
            assert(out@ =~= old(out)@ + dec_of(n as nat));
        }
    } else {
        push_dec_u32(n / 10, out);
        let r: u32 = n % 10;
        let d: u8 = r as u8 + 48;
        out.push(d as char);
        proof {
            assert((n as nat) / 10 == (n / 10) as nat);
            assert((n as nat) % 10 == r as nat);
            assert(d as char == digit_char(r as nat));
            assert(out@ =~= old(out)@ + dec_of(n as nat));
        }
    }
}

/// Whether `c` is a decimal digit, decided in executable code.
pub fn digit_check(c: char) -> (r: bool)
    ensures
        r == is_digit(c),
{
    '0' <= c && c <= '9'
}

/// Parses `s[from..to]` as a `u32` written in decimal digits.
///
/// Returns `Some` exactly when the range is non-empty, holds only digits and
/// denotes a value within `u32` range; leading zeros are accepted.
pub fn parse_u32_range(s: &Vec<char>, from: usize, to: usize) -> (r: Option<u32>)
    requires
        from <= to <= s@.len(),
    ensures
        match r {
            Some(n) => {
                &&& to > from
                &&& all_digits(s@.subrange(from as int, to as int))
                &&& dec_value(s@.subrange(from as int, to as int)) == n as nat
            },
            None => {
                to == from || !all_digits(s@.subrange(from as int, to as int)) || dec_value(
                    s@.subrange(from as int, to as int),
                ) > u32::MAX
            },
        },
{
    if from == to {
        return None;
    }
    let ghost tok = s@.subrange(from as int, to as int);
    let mut acc: u32 = 0;
    let mut i: usize = from;
    while i < to
        invariant
            from <= i <= to <= s@.len(),
            tok == s@.subrange(from as int, to as int),
            all_digits(tok.subrange(0, i - from)),
            acc as nat == dec_value(tok.subrange(0, i - from)),
        decreases to - i,
    {
        let c = s[i];
        proof {
            assert(tok[i - from] == c);
        }
        if !digit_check(c) {
            proof {
                assert(!is_digit(tok[i - from]));
            }
            return None;
        }
        let d: u32 = (c as u32) - 48;
        proof {
            assert(d as nat == digit_val(c));
            assert(d < 10);
        }
        if acc > (u32::MAX - d) / 10 {
            proof {
                let p = tok.subrange(0, i - from + 1);
                assert(p.drop_last() =~= tok.subrange(0, i - from));
                assert(dec_value(p) == acc as nat * 10 + d as nat);
                assert(acc as nat * 10 + d as nat > u32::MAX) by (nonlinear_arith)
                    requires
                        acc > (u32::MAX - d) / 10,
                        d < 10,
                        acc <= u32::MAX,
                {
                }
                lemma_dec_value_prefix_le(tok, i - from + 1);
            }
            return None;
        }
        proof {
            assert(acc as nat * 10 + d as nat <= u32::MAX) by (nonlinear_arith)
                requires
                    acc <= (u32::MAX - d) / 10,
                    d < 10,
            {
            }
        }
        acc = acc * 10 + d;
        i = i + 1;
        proof {
            let p = tok.subrange(0, i - from);
            assert(p.drop_last() =~= tok.subrange(0, i - from - 1));
            assert(p.last() == c);
        }
    }
    proof {
        assert(tok.subrange(0, to - from) =~= tok);
    }
    Some(acc)
}

/// Relies on `String::push`: appends exactly the given character.
#[verifier::external_body]
pub fn push_char(s: &mut String, c: char)
    ensures
        final(s)@ == old(s)@.push(c),
{
    s.push(c)
}

/// Copies the characters of `s` into a vector.
pub fn str_to_chars(s: &str) -> (v: Vec<char>)
    ensures
        v@ == s@,
{
    let n = s.unicode_len();
    let mut v: Vec<char> = Vec::new();
    let mut i: usize = 0;
    while i < n
        invariant
            i <= n,
            n == s@.len(),
            v@ == s@.subrange(0, i as int),
        decreases n - i,
    {
        v.push(s.get_char(i));
        i = i + 1;
        proof {
            assert(v@ =~= s@.subrange(0, i as int));
        }
    }
    proof {
        assert(s@.subrange(0, n as int) =~= s@);
    }
    v
}

/// Builds a `String` holding exactly the characters of `v`.
pub fn chars_to_string(v: &Vec<char>) -> (s: String)
    ensures
        s@ == v@,
{
    let mut s = String::new();
    let mut i: usize = 0;
    while i < v.len()
        invariant
            i <= v@.len(),
            s@ == v@.subrange(0, i as int),
        decreases v@.len() - i,
    {
        push_char(&mut s, v[i]);
        i = i + 1;
        proof {
            assert(s@ =~= v@.subrange(0, i as int));
        }
    }
    proof {
        assert(v@.subrange(0, v@.len() as int) =~= v@);
    }
    s
}

/// Compares `s[from..to]` with the whole of `pat`.
pub fn range_eq(s: &Vec<char>, from: usize, to: usize, pat: &Vec<char>) -> (r: bool)
    requires
        from <= to <= s@.len(),
    ensures
        r == (s@.subrange(from as int, to as int) == pat@),
{
    if to - from != pat.len() {
        proof {
            assert(s@.subrange(from as int, to as int).len() != pat@.len());
        }
        return false;
    }
    let mut i: usize = 0;
    while i < pat.len()
        invariant
            i <= pat@.len(),
            from <= to <= s@.len(),
            to - from == pat@.len(),
            forall|j: int| 0 <= j < i ==> s@.subrange(from as int, to as int)[j] == pat@[j],
        decreases pat@.len() - i,
    {
        if s[from + i] != pat[i] {
            proof {
                assert(s@.subrange(from as int, to as int)[i as int] != pat@[i as int]);
            }
            return false;
        }
        i = i + 1;
    }
    proof {
        assert(s@.subrange(from as int, to as int) =~= pat@);
    }
    true
}


/// The first position at or after `from` holding character `c`, or the
/// length when there is none.
pub open spec fn find_from(s: Seq<char>, from: int, c: char) -> int
    decreases s.len() - from,
    when from >= 0
{
    if from >= s.len() {
        s.len() as int
    } else if s[from] == c {
        from
    } else {
        find_from(s, from + 1, c)
    }
}

pub proof fn lemma_find_from_spec(s: Seq<char>, from: int, c: char)
    requires
        0 <= from <= s.len(),
    ensures
        from <= find_from(s, from, c) <= s.len(),
        find_from(s, from, c) < s.len() ==> s[find_from(s, from, c)] == c,
        forall|k: int| from <= k < find_from(s, from, c) ==> s[k] != c,
    decreases s.len() - from,
{
    if from < s.len() && s[from] != c {
        lemma_find_from_spec(s, from + 1, c);
    }
}

/// `find_from` always lands between `from` and the length.
pub proof fn lemma_find_from_nonneg(s: Seq<char>, from: int, c: char)
    requires
        from >= 0,
    ensures
        0 <= find_from(s, from, c) <= s.len(),
    decreases s.len() - from,
{
    if from < s.len() && s[from] != c {
        lemma_find_from_nonneg(s, from + 1, c);
    }
}

pub proof fn lemma_find_from_is(s: Seq<char>, from: int, k: int, c: char)
    requires
        0 <= from <= k <= s.len(),
        forall|i: int| from <= i < k ==> s[i] != c,
        k == s.len() || s[k] == c,
    ensures
        find_from(s, from, c) == k,
    decreases k - from,
{
    if from < k {
        lemma_find_from_is(s, from + 1, k, c);
    }
}

/// Finds the first occurrence of `c` at or after `from` in executable
/// code.
pub fn find_char(s: &Vec<char>, from: usize, c: char) -> (r: usize)
    requires
        from <= s@.len(),
    ensures
        r == find_from(s@, from as int, c),
        from <= r <= s@.len(),
{
    let mut i: usize = from;
    while i < s.len() && s[i] != c
        invariant
            from <= i <= s@.len(),
            forall|k: int| from <= k < i ==> s@[k] != c,
        decreases s@.len() - i,
    {
        i = i + 1;
    }
    proof {
        lemma_find_from_is(s@, from as int, i as int, c);
    }
    i
}

/// True when `s` contains none of the characters that the ledger document
/// format reserves for its own structure at this position: a timestamp label
/// may hold anything but a comma or a line break.
pub open spec fn label_ok(s: Seq<char>) -> bool {
    forall|i: int| 0 <= i < s.len() ==> s[i] != ',' && s[i] != '\n' && s[i] != '\r'
}

/// A display name may hold commas; it must not hold a double-quote character
/// (the codec's name delimiter) or a line break.
pub open spec fn name_ok(s: Seq<char>) -> bool {
    forall|i: int| 0 <= i < s.len() ==> s[i] != '"' && s[i] != '\n' && s[i] != '\r'
}

/// A set code is written as a bare row field: no comma, no line break.
pub open spec fn set_ok(s: Seq<char>) -> bool {
    forall|i: int| 0 <= i < s.len() ==> s[i] != ',' && s[i] != '\n' && s[i] != '\r'
}

/// A recorded price is numeric text: digits, `.` and `-` characters only,
/// non-empty, and not the single dash that the codec reserves for an absent
/// price.
pub open spec fn price_ok(s: Seq<char>) -> bool {
    &&& s.len() > 0
    &&& s != seq!['-']
    &&& forall|i: int|
        0 <= i < s.len() ==> is_digit(#[trigger] s[i]) || s[i] == '.' || s[i] == '-'
}

/// Decides `label_ok` in executable code.
pub fn check_label(v: &Vec<char>) -> (r: bool)
    ensures
        r == label_ok(v@),
{
    let mut i: usize = 0;
    while i < v.len()
        invariant
            i <= v@.len(),
            forall|j: int| 0 <= j < i ==> v@[j] != ',' && v@[j] != '\n' && v@[j] != '\r',
        decreases v@.len() - i,
    {
        let c = v[i];
        if c == ',' || c == '\n' || c == '\r' {
            return false;
        }
        i = i + 1;
    }
    true
}

/// Decides `name_ok` in executable code.
pub fn check_name(v: &Vec<char>) -> (r: bool)
    ensures
        r == name_ok(v@),
{
    let mut i: usize = 0;
    while i < v.len()
        invariant
            i <= v@.len(),
            forall|j: int| 0 <= j < i ==> v@[j] != '"' && v@[j] != '\n' && v@[j] != '\r',
        decreases v@.len() - i,
    {
        let c = v[i];
        if c == '"' || c == '\n' || c == '\r' {
            return false;
        }
        i = i + 1;
    }
    true
}

/// Decides `price_ok` on the range `s[from..to]`.
pub fn check_price_range(s: &Vec<char>, from: usize, to: usize) -> (r: bool)
    requires
        from <= to <= s@.len(),
    ensures
        r == price_ok(s@.subrange(from as int, to as int)),
{
    let ghost tok = s@.subrange(from as int, to as int);
    if from == to {
        return false;
    }
    if to - from == 1 && s[from] == '-' {
        proof {
            assert(tok =~= seq!['-']);
        }
        return false;
    }
    let mut i: usize = from;
    while i < to
        invariant
            from <= i <= to <= s@.len(),
            tok == s@.subrange(from as int, to as int),
            forall|j: int|
                0 <= j < i - from ==> is_digit(#[trigger] tok[j]) || tok[j] == '.' || tok[j]
                    == '-',
        decreases to - i,
    {
        let c = s[i];
        proof {
            assert(tok[i - from] == c);
        }
        if !(digit_check(c) || c == '.' || c == '-') {
            return false;
        }
        i = i + 1;
    }
    proof {
        assert(tok.len() > 1 || tok[0] != '-');
        if tok.len() == 1 {
            assert(tok != seq!['-']);
        } else {
            assert(tok.len() != seq!['-'].len());
        }
    }
    true
}

} // verus!
