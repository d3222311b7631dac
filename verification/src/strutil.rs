//! Verified text helpers: decimal numbers, substring search, trimming
//! and splitting over `Seq<char>` views.

use vstd::prelude::*;

verus! {

use vstd::string::StrSliceExecFns;
use vstd::string::StringExecFns;

/// A decimal digit `'0'..='9'`.
pub open spec fn is_digit(c: char) -> bool {
    48 <= c as u32 <= 57
}

/// Numeric value of a decimal digit.
pub open spec fn digit_val(c: char) -> nat
    recommends
        is_digit(c),
{
    (c as u32 - 48) as nat
}

/// The digit character for a value below ten.
pub open spec fn digit_char(d: nat) -> char
    recommends
        d < 10,
{
    if d == 0 {
        '0'
    } else if d == 1 {
        '1'
    } else if d == 2 {
        '2'
    } else if d == 3 {
        '3'
    } else if d == 4 {
        '4'
    } else if d == 5 {
        '5'
    } else if d == 6 {
        '6'
    } else if d == 7 {
        '7'
    } else if d == 8 {
        '8'
    } else {
        '9'
    }
}

/// Canonical decimal rendering of a natural number, most significant
/// digit first, with no leading zeros (zero itself renders as "0").
pub open spec fn dec_digits(n: nat) -> Seq<char>
    decreases n,
{
    if n < 10 {
        seq![digit_char(n)]
    } else {
        dec_digits(n / 10).push(digit_char(n % 10))
    }
}

/// Every character of the sequence is a decimal digit.
pub open spec fn all_digits(s: Seq<char>) -> bool {
    forall|i: int| 0 <= i < s.len() ==> is_digit(#[trigger] s[i])
}

/// The natural number denoted by a sequence of decimal digits
/// (the empty sequence denotes zero).
pub open spec fn digits_to_nat(s: Seq<char>) -> nat
    decreases s.len(),
{
    if s.len() == 0 {
        0
    } else {
        digits_to_nat(s.drop_last()) * 10 + digit_val(s.last())
    }
}

pub proof fn lemma_digit_char_val(d: nat)
    requires
        d < 10,
    ensures
        is_digit(digit_char(d)),
        digit_val(digit_char(d)) == d,
{
}

pub proof fn lemma_dec_digits_wf(n: nat)
    ensures
        dec_digits(n).len() >= 1,
        all_digits(dec_digits(n)),
        is_digit(dec_digits(n)[0]),
        n >= 1 ==> digit_val(dec_digits(n)[0]) >= 1,
    decreases n,
{
    if n < 10 {
        lemma_digit_char_val(n);
    } else {
        lemma_dec_digits_wf(n / 10);
        lemma_digit_char_val(n % 10);
        assert(dec_digits(n)[0] == dec_digits(n / 10)[0]);
    }
}

/// The decimal rendering evaluates back to the number it renders.
pub proof fn lemma_dec_digits_roundtrip(n: nat)
    ensures
        digits_to_nat(dec_digits(n)) == n,
    decreases n,
{
    assert(digits_to_nat(Seq::<char>::empty()) == 0);
    if n < 10 {
        lemma_digit_char_val(n);
        assert(dec_digits(n) =~= Seq::<char>::empty().push(digit_char(n)));
        lemma_digits_push(Seq::<char>::empty(), digit_char(n));
    } else {
        lemma_dec_digits_roundtrip(n / 10);
        lemma_digit_char_val(n % 10);
        lemma_digits_push(dec_digits(n / 10), digit_char(n % 10));
        assert(n / 10 * 10 + n % 10 == n) by {
            vstd::arithmetic::div_mod::lemma_fundamental_div_mod(n as int, 10);
        }
    }
}

/// Appending a digit multiplies the denoted value by ten and adds it.
pub proof fn lemma_digits_push(s: Seq<char>, c: char)
    ensures
        digits_to_nat(s.push(c)) == digits_to_nat(s) * 10 + digit_val(c),
{
    assert(s.push(c).drop_last() =~= s);
}

/// A digit string denotes at least as much as any of its prefixes.
pub proof fn lemma_digits_prefix_le(s: Seq<char>, i: int)
    requires
        0 <= i <= s.len(),
    ensures
        digits_to_nat(s.subrange(0, i)) <= digits_to_nat(s),
    decreases s.len() - i,
{
    if i == s.len() {
        assert(s.subrange(0, i) =~= s);
    } else {
        lemma_digits_prefix_le(s, i + 1);
        lemma_digits_push(s.subrange(0, i), s[i]);
        assert(s.subrange(0, i + 1) =~= s.subrange(0, i).push(s[i]));
    }
}

/// One-character string for a digit value.
pub fn digit_to_str(d: u32) -> (r: &'static str)
    requires
        d < 10,
    ensures
        r@ =~= seq![digit_char(d as nat)],
{
    proof {
        reveal_strlit("0");
        reveal_strlit("1");
        reveal_strlit("2");
        reveal_strlit("3");
        reveal_strlit("4");
        reveal_strlit("5");
        reveal_strlit("6");
        reveal_strlit("7");
        reveal_strlit("8");
        reveal_strlit("9");
    }
    if d == 0 {
        "0"
    } else if d == 1 {
        "1"
    } else if d == 2 {
        "2"
    } else if d == 3 {
        "3"
    } else if d == 4 {
        "4"
    } else if d == 5 {
        "5"
    } else if d == 6 {
        "6"
    } else if d == 7 {
        "7"
    } else if d == 8 {
        "8"
    } else {
        "9"
    }
}

/// Decimal rendering of a 32-bit number.
pub fn u32_to_string(n: u32) -> (r: String)
    ensures
        r@ == dec_digits(n as nat),
    decreases n,
{
    if n < 10 {
        String::from_str(digit_to_str(n))
    } else {
        let mut s = u32_to_string(n / 10);
        s.append(digit_to_str(n % 10));
        proof {
            assert(dec_digits((n / 10) as nat) + seq![digit_char((n % 10) as nat)] =~= dec_digits(
                (n / 10) as nat,
            ).push(digit_char((n % 10) as nat)));
        }
        s
    }
}

/// Parses the characters `s@[from..to]` as an unsigned decimal number.
///
/// Returns `None` when the range is empty, holds a non-digit, or the
/// denoted value does not fit in 32 bits.
pub fn parse_u32_range(s: &str, from: usize, to: usize) -> (r: Option<u32>)
    requires
        from <= to <= s@.len(),
    ensures
        r is Some <==> parse_u32_spec(s@.subrange(from as int, to as int)) is Some,
        r is Some ==> r == parse_u32_spec(s@.subrange(from as int, to as int)),
{
    let ghost whole = s@.subrange(from as int, to as int);
    if from == to {
        return None;
    }
    let mut acc: u32 = 0;
    let mut i: usize = from;
    while i < to
        invariant
            from <= i <= to <= s@.len(),
            from < to,
            whole == s@.subrange(from as int, to as int),
            all_digits(s@.subrange(from as int, i as int)),
            acc as nat == digits_to_nat(s@.subrange(from as int, i as int)),
        decreases to - i,
    {
        let ghost prefix = s@.subrange(from as int, i as int);
        let c = s.get_char(i);
        let cv = c as u32;
        if cv < 48 || cv > 57 {
            proof {
                assert(whole[i - from] == s@[i as int]);
            }
            return None;
        }
        let d = cv - 48;
        proof {
            lemma_digits_push(prefix, c);
            assert(s@.subrange(from as int, (i + 1) as int) =~= prefix.push(c));
        }
        if acc > (u32::MAX - d) / 10 {
            proof {
                let q = ((u32::MAX - d) / 10) as nat;
                vstd::arithmetic::div_mod::lemma_fundamental_div_mod((u32::MAX - d) as int, 10);
                assert(acc as nat * 10 + d as nat > u32::MAX as nat);
                assert(whole.subrange(0, (i + 1 - from) as int) =~= s@.subrange(
                    from as int,
                    (i + 1) as int,
                ));
                assert(digits_to_nat(whole.subrange(0, (i + 1 - from) as int)) > u32::MAX);
                lemma_parse_u32_spec_overflow(whole);
            }
            return None;
        }
        acc = acc * 10 + d;
        i = i + 1;
    }
    proof {
        assert(whole =~= s@.subrange(from as int, to as int));
    }
    Some(acc)
}

/// The number denoted by a non-empty, all-digit character sequence,
/// if it fits in 32 bits.
pub open spec fn parse_u32_spec(s: Seq<char>) -> Option<u32> {
    if s.len() >= 1 && all_digits(s) && digits_to_nat(s) <= u32::MAX {
        Some(digits_to_nat(s) as u32)
    } else {
        None
    }
}

proof fn lemma_parse_u32_spec_overflow(s: Seq<char>)
    requires
        exists|i: int|
            0 <= i <= s.len() && digits_to_nat(#[trigger] s.subrange(0, i)) > u32::MAX,
    ensures
        parse_u32_spec(s) is None,
{
    let i = choose|i: int|
        0 <= i <= s.len() && digits_to_nat(#[trigger] s.subrange(0, i)) > u32::MAX;
    lemma_digits_prefix_le(s, i);
}

/// The needle `n` occurs in `h` starting at position `i`.
pub open spec fn occurs_at(h: Seq<char>, n: Seq<char>, i: int) -> bool {
    0 <= i && i + n.len() <= h.len() && h.subrange(i, i + n.len()) == n
}

/// The needle `n` occurs somewhere in `h`.
pub open spec fn contains_seq(h: Seq<char>, n: Seq<char>) -> bool {
    exists|i: int| occurs_at(h, n, i)
}

/// `i` is the earliest position at which `n` occurs in `h`.
pub open spec fn is_first_occurrence(h: Seq<char>, n: Seq<char>, i: int) -> bool {
    occurs_at(h, n, i) && forall|k: int| 0 <= k < i ==> !occurs_at(h, n, k)
}

/// The earliest position at which `n` occurs in `h`, if any.
pub open spec fn first_occurrence(h: Seq<char>, n: Seq<char>) -> Option<int> {
    if contains_seq(h, n) {
        Some(choose|i: int| is_first_occurrence(h, n, i))
    } else {
        None
    }
}

/// Wherever a needle occurs, it has an earliest occurrence.
pub proof fn lemma_first_occurrence_exists(h: Seq<char>, n: Seq<char>, j: int)
    requires
        occurs_at(h, n, j),
    ensures
        exists|i: int| is_first_occurrence(h, n, i),
        first_occurrence(h, n) is Some,
        is_first_occurrence(h, n, first_occurrence(h, n)->Some_0),
    decreases j,
{
    if forall|k: int| 0 <= k < j ==> !occurs_at(h, n, k) {
        assert(is_first_occurrence(h, n, j));
    } else {
        let k = choose|k: int| 0 <= k < j && occurs_at(h, n, k);
        lemma_first_occurrence_exists(h, n, k);
    }
    let w = choose|i: int| is_first_occurrence(h, n, i);
    assert(occurs_at(h, n, w));
}

/// The earliest occurrence is unique.
pub proof fn lemma_first_occurrence_unique(h: Seq<char>, n: Seq<char>, i: int)
    requires
        is_first_occurrence(h, n, i),
    ensures
        first_occurrence(h, n) == Some(i),
{
    lemma_first_occurrence_exists(h, n, i);
    let w = first_occurrence(h, n)->Some_0;
    if w < i {
        assert(!occurs_at(h, n, w));
    }
    if i < w {
        assert(!occurs_at(h, n, i));
    }
}

/// Whether `n@` equals `h@[i .. i + n@.len()]`.
fn matches_at(h: &str, n: &str, i: usize, nl: usize) -> (r: bool)
    requires
        nl == n@.len(),
        i + nl <= h@.len(),
        h@.len() <= usize::MAX,
    ensures
        r == occurs_at(h@, n@, i as int),
{
    let mut j: usize = 0;
    while j < nl
        invariant
            0 <= j <= nl,
            nl == n@.len(),
            i + nl <= h@.len(),
            h@.len() <= usize::MAX,
            forall|k: int| 0 <= k < j ==> h@[i + k] == n@[k],
        decreases nl - j,
    {
        if h.get_char(i + j) != n.get_char(j) {
            proof {
                assert(h@.subrange(i as int, i + nl) != n@) by {
                    assert(h@.subrange(i as int, i + nl)[j as int] == h@[i + j]);
                }
            }
            return false;
        }
        j = j + 1;
    }
    proof {
        assert(h@.subrange(i as int, i + nl) =~= n@);
    }
    true
}

/// Earliest occurrence of `n` in `h` at a position no less than `from`.
pub fn find_from(h: &str, n: &str, from: usize) -> (r: Option<usize>)
    requires
        from <= h@.len(),
        n@.len() >= 1,
    ensures
        match r {
            Some(i) => from <= i && occurs_at(h@, n@, i as int) && (forall|k: int|
                from <= k < i ==> !occurs_at(h@, n@, k)),
            None => forall|k: int| from <= k ==> !occurs_at(h@, n@, k),
        },
{
    let hl = h.unicode_len();
    let nl = n.unicode_len();
    if nl > hl - from {
        assert forall|k: int| from <= k implies !occurs_at(h@, n@, k) by {};
        return None;
    }
    let mut i: usize = from;
    while i <= hl - nl
        invariant
            from <= i,
            nl <= hl,
            i <= hl - nl + 1,
            hl == h@.len(),
            nl == n@.len(),
            nl >= 1,
            forall|k: int| from <= k < i ==> !occurs_at(h@, n@, k),
        decreases hl - i,
    {
        if matches_at(h, n, i, nl) {
            return Some(i);
        }
        i = i + 1;
    }
    None
}

/// Whether the needle occurs anywhere in the haystack.
pub fn str_contains(h: &str, n: &str) -> (r: bool)
    requires
        n@.len() >= 1,
    ensures
        r == contains_seq(h@, n@),
{
    let f = find_from(h, n, 0);
    proof {
        if f is Some {
            assert(occurs_at(h@, n@, f->Some_0 as int));
        } else {
            assert forall|i: int| !occurs_at(h@, n@, i) by {}
        }
    }
    f.is_some()
}

/// Whether `s` begins with the prefix `p`.
pub fn str_starts_with(s: &str, p: &str) -> (r: bool)
    ensures
        r == (p@.len() <= s@.len() && s@.subrange(0, p@.len() as int) == p@),
{
    let sl = s.unicode_len();
    let pl = p.unicode_len();
    if pl > sl {
        return false;
    }
    matches_at(s, p, 0, pl)
}

/// ASCII whitespace: space, tab, line feed, vertical tab, form feed,
/// carriage return. This library trims only these; the texts it reads
/// (sysfs attribute files, the kernel command line) are ASCII.
pub open spec fn is_ascii_space(c: char) -> bool {
    c == ' ' || c == '\t' || c == '\n' || c == '\r' || c as u32 == 11 || c as u32 == 12
}

/// `s` with leading ASCII whitespace removed.
pub open spec fn trim_front_spec(s: Seq<char>) -> Seq<char>
    decreases s.len(),
{
    if s.len() > 0 && is_ascii_space(s[0]) {
        trim_front_spec(s.drop_first())
    } else {
        s
    }
}

/// `s` with trailing ASCII whitespace removed.
pub open spec fn trim_back_spec(s: Seq<char>) -> Seq<char>
    decreases s.len(),
{
    if s.len() > 0 && is_ascii_space(s.last()) {
        trim_back_spec(s.drop_last())
    } else {
        s
    }
}

/// `s` with leading and trailing ASCII whitespace removed.
pub open spec fn trim_spec(s: Seq<char>) -> Seq<char> {
    trim_back_spec(trim_front_spec(s))
}

proof fn lemma_trim_front_skip(s: Seq<char>, i: int)
    requires
        0 <= i <= s.len(),
        forall|k: int| 0 <= k < i ==> is_ascii_space(s[k]),
        i == s.len() || !is_ascii_space(s[i]),
    ensures
        trim_front_spec(s) == s.subrange(i, s.len() as int),
    decreases i,
{
    if i == 0 {
        assert(s.subrange(0, s.len() as int) =~= s);
    } else {
        lemma_trim_front_skip(s.drop_first(), i - 1);
        assert(s.drop_first().subrange(i - 1, s.drop_first().len() as int) =~= s.subrange(
            i,
            s.len() as int,
        ));
    }
}

proof fn lemma_trim_back_skip(s: Seq<char>, j: int)
    requires
        0 <= j <= s.len(),
        forall|k: int| j <= k < s.len() ==> is_ascii_space(s[k]),
        j == 0 || !is_ascii_space(s[j - 1]),
    ensures
        trim_back_spec(s) == s.subrange(0, j),
    decreases s.len() - j,
{
    if j == s.len() {
        assert(s.subrange(0, j) =~= s);
    } else {
        lemma_trim_back_skip(s.drop_last(), j);
        assert(s.drop_last().subrange(0, j) =~= s.subrange(0, j));
    }
}

/// The characters of `s` with leading and trailing ASCII whitespace
/// removed.
pub fn trim(s: &str) -> (r: &str)
    ensures
        r@ == trim_spec(s@),
{
    let len = s.unicode_len();
    let mut i: usize = 0;
    while i < len && is_space_char(s.get_char(i))
        invariant
            0 <= i <= len,
            len == s@.len(),
            forall|k: int| 0 <= k < i ==> is_ascii_space(s@[k]),
        decreases len - i,
    {
        i = i + 1;
    }
    proof {
        lemma_trim_front_skip(s@, i as int);
    }
    let ghost front = s@.subrange(i as int, s@.len() as int);
    let mut j: usize = len;
    while j > i && is_space_char(s.get_char(j - 1))
        invariant
            i <= j <= len,
            len == s@.len(),
            forall|k: int| j <= k < len ==> is_ascii_space(s@[k]),
        decreases j,
    {
        j = j - 1;
    }
    proof {
        assert forall|k: int| (j - i) <= k < front.len() implies is_ascii_space(front[k]) by {
            assert(front[k] == s@[k + i]);
        }
        if j > i {
            assert(front[j - i - 1] == s@[j - 1]);
        }
        lemma_trim_back_skip(front, j - i);
        assert(front.subrange(0, j - i) =~= s@.subrange(i as int, j as int));
    }
    s.substring_char(i, j)
}

/// Whether the character is ASCII whitespace.
pub fn is_space_char(c: char) -> (r: bool)
    ensures
        r == is_ascii_space(c),
{
    c == ' ' || c == '\t' || c == '\n' || c == '\r' || c as u32 == 11 || c as u32 == 12
}

/// The pieces of `s` between occurrences of the separator, in order.
/// A separator at the edge, or two adjacent ones, yields an empty piece.
pub open spec fn split_by(s: Seq<char>, sep: char) -> Seq<Seq<char>>
    decreases s.len(),
    via split_by_decreases
{
    match first_occurrence(s, seq![sep]) {
        Option::None => seq![s],
        Option::Some(i) => seq![s.subrange(0, i)] + split_by(
            s.subrange(i + 1, s.len() as int),
            sep,
        ),
    }
}

#[via_fn]
proof fn split_by_decreases(s: Seq<char>, sep: char) {
    if contains_seq(s, seq![sep]) {
        let j = choose|j: int| occurs_at(s, seq![sep], j);
        lemma_first_occurrence_exists(s, seq![sep], j);
    }
}

proof fn lemma_first_occurrence_char(s: Seq<char>, sep: char)
    ensures
        forall|i: int|
            0 <= i < s.len() ==> (occurs_at(s, seq![sep], i) <==> s[i] == sep),
        first_occurrence(s, seq![sep]) matches Some(i) ==> 0 <= i < s.len(),
{
    assert forall|i: int| 0 <= i < s.len() implies (occurs_at(s, seq![sep], i) <==> s[i]
        == sep) by {
        if s[i] == sep {
            assert(s.subrange(i, i + 1) =~= seq![sep]);
        } else {
            assert(s.subrange(i, i + 1)[0] == s[i]);
        }
    }
    if contains_seq(s, seq![sep]) {
        let j = choose|j: int| occurs_at(s, seq![sep], j);
        lemma_first_occurrence_exists(s, seq![sep], j);
    }
}

/// Splits `s` at every occurrence of the separator character.
pub fn split_string(s: &str, sep: char) -> (r: Vec<String>)
    ensures
        r.deep_view() == split_by(s@, sep),
{
    let len = s.unicode_len();
    let mut out: Vec<String> = Vec::new();
    let mut pos: usize = 0;
    proof {
        assert(out.deep_view() =~= Seq::<Seq<char>>::empty());
        assert(s@.subrange(0, len as int) =~= s@);
        assert(Seq::<Seq<char>>::empty() + split_by(s@, sep) =~= split_by(s@, sep));
    }
    loop
        invariant_except_break
            out.deep_view() + split_by(s@.subrange(pos as int, len as int), sep) == split_by(
                s@,
                sep,
            ),
        invariant
            0 <= pos <= len,
            len == s@.len(),
        ensures
            out.deep_view() == split_by(s@, sep),
        decreases len - pos,
    {
        let ghost suffix = s@.subrange(pos as int, len as int);
        // scan for the next separator
        let mut i: usize = pos;
        while i < len && s.get_char(i) != sep
            invariant
                pos <= i <= len,
                len == s@.len(),
                forall|k: int| pos <= k < i ==> s@[k] != sep,
            decreases len - i,
        {
            i = i + 1;
        }
        proof {
            lemma_first_occurrence_char(suffix, sep);
            assert forall|k2: int| 0 <= k2 < (i - pos) implies #[trigger] suffix[k2] != sep by {
                assert(suffix[k2] == s@[k2 + pos]);
            }
        }
        let piece = s.substring_char(pos, i);
        let mut piece_string = String::new();
        piece_string.append(piece);
        let ghost prev = out.deep_view();
        out.push(piece_string);
        proof {
            assert(out.deep_view() =~= prev.push(piece_string@));
            assert(piece_string@ =~= s@.subrange(pos as int, i as int));
        }
        if i == len {
            proof {
                assert forall|k: int| !occurs_at(suffix, seq![sep], k) by {
                    if 0 <= k < suffix.len() {
                        assert(suffix[k] != sep);
                    }
                }
                assert(!contains_seq(suffix, seq![sep]));
                assert(split_by(suffix, sep) == seq![suffix]);
                assert(piece_string@ == suffix);
                assert(prev.push(suffix) =~= prev + seq![suffix]);
            }
            break;
        }
        proof {
            assert(s@[i as int] == sep);
            assert(suffix[i - pos] == s@[i as int]);
            assert(occurs_at(suffix, seq![sep], i - pos));
            assert forall|k2: int| 0 <= k2 < i - pos implies !occurs_at(suffix, seq![sep], k2) by {
                assert(suffix[k2] != sep);
            }
            assert(is_first_occurrence(suffix, seq![sep], i - pos));
            lemma_first_occurrence_unique(suffix, seq![sep], i - pos);
            let tail = suffix.subrange(i - pos + 1, suffix.len() as int);
            assert(split_by(suffix, sep) == seq![suffix.subrange(0, i - pos)] + split_by(
                tail,
                sep,
            ));
            assert(suffix.subrange(0, i - pos) =~= s@.subrange(pos as int, i as int));
            assert(tail =~= s@.subrange((i + 1) as int, len as int));
            assert(prev.push(piece_string@) + split_by(tail, sep) =~= prev + (seq![
                suffix.subrange(0, i - pos),
            ] + split_by(tail, sep)));
            assert(prev + (seq![suffix.subrange(0, i - pos)] + split_by(tail, sep)) =~= prev
                + seq![suffix.subrange(0, i - pos)] + split_by(tail, sep));
        }
        pos = i + 1;
    }
    out
}

/// A concatenation holds its right-hand piece.
pub proof fn lemma_concat_contains_suffix(a: Seq<char>, b: Seq<char>)
    ensures
        contains_seq(a + b, b),
{
    assert(occurs_at(a + b, b, a.len() as int)) by {
        assert((a + b).subrange(a.len() as int, (a + b).len() as int) =~= b);
    }
}

/// A concatenation holds its middle piece.
pub proof fn lemma_concat_contains_middle(a: Seq<char>, b: Seq<char>, c: Seq<char>)
    ensures
        contains_seq(a + b + c, b),
{
    assert(occurs_at(a + b + c, b, a.len() as int)) by {
        assert((a + b + c).subrange(a.len() as int, (a.len() + b.len()) as int) =~= b);
    }
}

/// `s` with every occurrence of `pat` replaced by `rep`, scanning left
/// to right; an empty pattern replaces nothing.
pub open spec fn replace_spec(s: Seq<char>, pat: Seq<char>, rep: Seq<char>) -> Seq<char>
    decreases s.len(),
    via replace_spec_decreases
{
    if pat.len() == 0 {
        s
    } else {
        match first_occurrence(s, pat) {
            Option::None => s,
            Option::Some(i) => s.subrange(0, i) + rep + replace_spec(
                s.subrange(i + pat.len() as int, s.len() as int),
                pat,
                rep,
            ),
        }
    }
}

#[via_fn]
proof fn replace_spec_decreases(s: Seq<char>, pat: Seq<char>, rep: Seq<char>) {
    if pat.len() > 0 && contains_seq(s, pat) {
        let j = choose|j: int| occurs_at(s, pat, j);
        lemma_first_occurrence_exists(s, pat, j);
    }
}

/// `s` with every occurrence of `pat` replaced by `rep`.
#[verifier::rlimit(60)]
pub fn replace_all(s: &str, pat: &str, rep: &str) -> (r: String)
    requires
        pat@.len() >= 1,
    ensures
        r@ == replace_spec(s@, pat@, rep@),
{
    let len = s.unicode_len();
    let pl = pat.unicode_len();
    let mut out = String::new();
    let mut pos: usize = 0;
    proof {
        assert(s@.subrange(0, len as int) =~= s@);
        assert(Seq::<char>::empty() + replace_spec(s@, pat@, rep@) =~= replace_spec(
            s@,
            pat@,
            rep@,
        ));
    }
    loop
        invariant_except_break
            out@ + replace_spec(s@.subrange(pos as int, len as int), pat@, rep@) == replace_spec(
                s@,
                pat@,
                rep@,
            ),
        invariant
            0 <= pos <= len,
            len == s@.len(),
            pl == pat@.len(),
            pl >= 1,
        ensures
            out@ == replace_spec(s@, pat@, rep@),
        decreases len - pos,
    {
        let ghost suffix = s@.subrange(pos as int, len as int);
        proof {
            assert forall|k: int|
                pos <= k && k + pl <= len implies (occurs_at(s@, pat@, k) <==> occurs_at(
                suffix,
                pat@,
                k - pos,
            )) by {
                assert(suffix.subrange(k - pos, k - pos + pl) =~= s@.subrange(k, k + pl));
            }
        }
        match find_from(s, pat, pos) {
            Option::Some(i) => {
                proof {
                    assert(occurs_at(suffix, pat@, i - pos));
                    assert forall|k2: int|
                        0 <= k2 < i - pos implies !occurs_at(suffix, pat@, k2) by {
                        assert(!occurs_at(s@, pat@, k2 + pos));
                    }
                    assert(is_first_occurrence(suffix, pat@, i - pos));
                    lemma_first_occurrence_unique(suffix, pat@, i - pos);
                }
                let chunk = s.substring_char(pos, i);
                out.append(chunk);
                out.append(rep);
                proof {
                    assert(suffix.subrange(0, i - pos) =~= s@.subrange(pos as int, i as int));
                    assert(suffix.subrange(i - pos + pl, suffix.len() as int) =~= s@.subrange(
                        (i + pl) as int,
                        len as int,
                    ));
                    assert(replace_spec(suffix, pat@, rep@) == suffix.subrange(0, i - pos) + rep@
                        + replace_spec(s@.subrange((i + pl) as int, len as int), pat@, rep@));
                }
                pos = i + pl;
            },
            Option::None => {
                proof {
                    assert forall|k2: int| !occurs_at(suffix, pat@, k2) by {
                        if 0 <= k2 && k2 + pl <= suffix.len() {
                            assert(!occurs_at(s@, pat@, k2 + pos));
                        }
                    }
                    assert(!contains_seq(suffix, pat@));
                    assert(replace_spec(suffix, pat@, rep@) == suffix);
                }
                let chunk = s.substring_char(pos, len);
                out.append(chunk);
                break;
            },
        }
    }
    out
}

/// Whether two string slices hold the same characters.
pub fn str_eq(a: &str, b: &str) -> (r: bool)
    ensures
        r == (a@ == b@),
{
    let al = a.unicode_len();
    let bl = b.unicode_len();
    if al != bl {
        return false;
    }
    let r = matches_at(a, b, 0, bl);
    proof {
        if r {
            assert(a@.subrange(0, bl as int) =~= a@);
        } else {
            assert(a@.subrange(0, bl as int) =~= a@);
        }
    }
    r
}

} // verus!
