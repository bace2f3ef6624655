use vstd::prelude::*;

verus! {

broadcast use vstd::string::axiom_spec_iter;

/// The Unicode White_Space code points: the set `char::is_whitespace`
/// answers for, and the set trimming strips from a cell's ends.
pub open spec fn is_space_char(c: char) -> bool {
    let v = c as u32;
    ||| 0x9 <= v <= 0xD
    ||| v == 0x20
    ||| v == 0x85
    ||| v == 0xA0
    ||| v == 0x1680
    ||| 0x2000 <= v <= 0x200A
    ||| v == 0x2028
    ||| v == 0x2029
    ||| v == 0x202F
    ||| v == 0x205F
    ||| v == 0x3000
}

/// Whether a character is whitespace, by the same table as
/// `char::is_whitespace`.
pub fn char_is_whitespace(c: char) -> (r: bool)
    ensures
        r == is_space_char(c),
{
    let v = c as u32;
    (0x9 <= v && v <= 0xD) || v == 0x20 || v == 0x85 || v == 0xA0 || v == 0x1680 || (0x2000 <= v
        && v <= 0x200A) || v == 0x2028 || v == 0x2029 || v == 0x202F || v == 0x205F || v == 0x3000
}

/// The characters of a string, one by one.
pub fn str_to_chars(s: &str) -> (r: Vec<char>)
    ensures
        r@ == s@,
{
    let mut out: Vec<char> = Vec::new();
    for c in it: s.chars()
        invariant
            it.seq() == s@,
            out@ == it.seq().take(it.index() as int),
    {
        out.push(c);
    }
    proof {
        assert(out@ =~= s@);
    }
    out
}

/// A sequence with its leading whitespace removed.
pub open spec fn trim_front_spec(s: Seq<char>) -> Seq<char>
    decreases s.len(),
{
    if s.len() > 0 && is_space_char(s[0]) {
        trim_front_spec(s.drop_first())
    } else {
        s
    }
}

/// A sequence with its trailing whitespace removed.
pub open spec fn trim_back_spec(s: Seq<char>) -> Seq<char>
    decreases s.len(),
{
    if s.len() > 0 && is_space_char(s.last()) {
        trim_back_spec(s.drop_last())
    } else {
        s
    }
}

/// A sequence with whitespace removed from both ends: what `str::trim`
/// leaves.
pub open spec fn trim_spec(s: Seq<char>) -> Seq<char> {
    trim_back_spec(trim_front_spec(s))
}

/// Dropping one leading space commutes with the front trim.
proof fn lemma_trim_front_step(s: Seq<char>, i: int)
    requires
        0 <= i < s.len(),
        forall|t: int| 0 <= t <= i ==> is_space_char(s[t]),
    ensures
        trim_front_spec(s) == trim_front_spec(s.skip(i + 1)),
    decreases i,
{
    if i == 0 {
        assert(s.drop_first() =~= s.skip(1));
    } else {
        lemma_trim_front_step(s, i - 1);
        assert(s.skip(i).drop_first() =~= s.skip(i + 1));
        assert(s.skip(i)[0] == s[i]);
    }
}

/// Dropping one trailing space commutes with the back trim.
proof fn lemma_trim_back_step(s: Seq<char>, j: int)
    requires
        0 <= j <= s.len(),
        forall|t: int| j <= t < s.len() ==> is_space_char(s[t]),
    ensures
        trim_back_spec(s) == trim_back_spec(s.take(j)),
    decreases s.len() - j,
{
    if j < s.len() {
        lemma_trim_back_step(s.drop_last(), j);
        assert(s.drop_last() =~= s.take(s.len() - 1));
        assert(s.take(s.len() - 1).take(j) =~= s.take(j));
    } else {
        assert(s.take(s.len() as int) =~= s);
    }
}

/// Removes leading and trailing whitespace, as `str::trim` does.
pub fn trim_chars(s: &[char]) -> (r: Vec<char>)
    ensures
        r@ == trim_spec(s@),
{
    let n = s.len();
    let mut start: usize = 0;
    proof {
        assert(s@.skip(0) =~= s@);
    }
    while start < n && char_is_whitespace(s[start])
        invariant
            start <= n,
            n == s@.len(),
            trim_front_spec(s@) == trim_front_spec(s@.skip(start as int)),
            forall|t: int| 0 <= t < start ==> is_space_char(s@[t]),
        decreases n - start,
    {
        proof {
            lemma_trim_front_step(s@, start as int);
        }
        start = start + 1;
    }
    let ghost fronted = s@.skip(start as int);
    proof {
        if start < n {
            assert(!is_space_char(fronted[0]));
        }
        assert(trim_front_spec(fronted) == fronted);
        assert(trim_front_spec(s@) == fronted);
    }
    let mut end: usize = n;
    proof {
        assert(fronted.take(n - start) =~= fronted);
    }
    while end > start && char_is_whitespace(s[end - 1])
        invariant
            start <= end <= n,
            n == s@.len(),
            fronted == s@.skip(start as int),
            trim_front_spec(s@) == fronted,
            trim_back_spec(fronted) == trim_back_spec(fronted.take(end - start)),
            forall|t: int| end <= t < n ==> is_space_char(s@[t]),
        decreases end,
    {
        proof {
            let part = fronted.take(end - start);
            assert(part.len() == end - start);
            assert(part.last() == s@[end - 1]);
            lemma_trim_back_step(part, end - start - 1);
            assert(part.take(end - start - 1) =~= fronted.take(end - 1 - start));
        }
        end = end - 1;
    }
    proof {
        let part = fronted.take(end - start);
        if end > start {
            assert(part.last() == s@[end - 1]);
            assert(!is_space_char(part.last()));
        }
        assert(trim_back_spec(part) == part);
        assert(trim_spec(s@) == part);
    }
    let mut out: Vec<char> = Vec::new();
    let mut i: usize = start;
    while i < end
        invariant
            start <= i <= end <= n,
            n == s@.len(),
            out@ == s@.subrange(start as int, i as int),
        decreases end - i,
    {
        out.push(s[i]);
        assert(out@ =~= s@.subrange(start as int, i + 1));
        i = i + 1;
    }
    proof {
        assert(out@ =~= fronted.take(end - start));
    }
    out
}

/// Newlines become spaces and carriage returns vanish: the character
/// cleanup a cell goes through after trimming.
pub open spec fn scrub_spec(s: Seq<char>) -> Seq<char>
    decreases s.len(),
{
    if s.len() == 0 {
        Seq::empty()
    } else {
        let c = if s[0] == '\n' {
            ' '
        } else {
            s[0]
        };
        let rest = scrub_spec(s.drop_first());
        if c == '\r' {
            rest
        } else {
            seq![c] + rest
        }
    }
}

/// The fully normalized text of a cell: trimmed, scrubbed, and with the
/// special case that a lone remaining space counts as empty.
pub open spec fn normalize_cell_spec(s: Seq<char>) -> Seq<char> {
    let v = scrub_spec(trim_spec(s));
    if v == seq![' '] {
        Seq::empty()
    } else {
        v
    }
}

/// Normalizes one raw cell.
pub fn normalize_cell(s: &str) -> (r: Vec<char>)
    ensures
        r@ == normalize_cell_spec(s@),
{
    let raw = str_to_chars(s);
    let trimmed = trim_chars(raw.as_slice());
    let ghost t = trim_spec(s@);
    let mut out: Vec<char> = Vec::new();
    let mut i: usize = 0;
    proof {
        assert(t.skip(0) =~= t);
        assert(out@ + scrub_spec(t) =~= scrub_spec(t));
    }
    while i < trimmed.len()
        invariant
            i <= trimmed@.len(),
            trimmed@ == t,
            out@ + scrub_spec(t.skip(i as int)) == scrub_spec(t),
        decreases trimmed@.len() - i,
    {
        let ghost prev = out@;
        let c = trimmed[i];
        let c2 = if c == '\n' {
            ' '
        } else {
            c
        };
        if c2 != '\r' {
            out.push(c2);
        }
        proof {
            let tail = t.skip(i as int);
            assert(tail[0] == t[i as int]);
            assert(tail.drop_first() =~= t.skip(i + 1));
            if c2 == '\r' {
                assert(out@ + scrub_spec(t.skip(i + 1)) =~= prev + scrub_spec(tail));
            } else {
                assert(out@ + scrub_spec(t.skip(i + 1)) =~= prev + scrub_spec(tail));
            }
        }
        i = i + 1;
    }
    proof {
        assert(t.skip(t.len() as int) =~= Seq::<char>::empty());
        assert(out@ =~= scrub_spec(t));
    }
    if out.len() == 1 && out[0] == ' ' {
        proof {
            assert(out@ =~= seq![' ']);
        }
        Vec::new()
    } else {
        proof {
            assert(out@ != seq![' ']);
        }
        out
    }
}

/// Whether a character is a decimal digit.
pub open spec fn is_dec_digit(c: char) -> bool {
    48 <= c as u32 <= 57
}

/// The numeric value of a digit character.
pub open spec fn digit_val(c: char) -> nat {
    ((c as u32) - 48) as nat
}

/// The base-ten value of a digit string.
pub open spec fn digits_val(s: Seq<char>) -> nat
    decreases s.len(),
{
    if s.len() == 0 {
        0
    } else {
        digits_val(s.drop_last()) * 10 + digit_val(s.last())
    }
}

/// The digits of an integer literal: everything after an optional
/// leading plus sign.
pub open spec fn u64_literal_digits(s: Seq<char>) -> Seq<char> {
    if s.len() >= 1 && s[0] == '+' {
        s.drop_first()
    } else {
        s
    }
}

/// Whether a string parses as a `u64`: an optional plus sign, then at
/// least one digit, with a value that fits.
pub open spec fn parses_as_u64(s: Seq<char>) -> bool {
    let d = u64_literal_digits(s);
    &&& d.len() > 0
    &&& forall|i: int| 0 <= i < d.len() ==> is_dec_digit(#[trigger] d[i])
    &&& digits_val(d) <= u64::MAX
}

/// The value a parse yields.
pub open spec fn u64_value_of(s: Seq<char>) -> nat {
    digits_val(u64_literal_digits(s))
}

/// A digit-string prefix never exceeds the whole string's value.
proof fn lemma_digits_val_prefix(s: Seq<char>, k: int)
    requires
        0 <= k <= s.len(),
    ensures
        digits_val(s.take(k)) <= digits_val(s),
    decreases s.len(),
{
    if k < s.len() {
        lemma_digits_val_prefix(s.drop_last(), k);
        assert(s.drop_last().take(k) =~= s.take(k));
        assert(digits_val(s.drop_last()) <= digits_val(s.drop_last()) * 10 + digit_val(s.last()))
            by (nonlinear_arith);
    } else {
        assert(s.take(k) =~= s);
    }
}

/// Parses a normalized cell as a `u64`, as the standard decimal parse
/// does: an optional plus sign, then decimal digits.
pub fn parse_u64_chars(s: &[char]) -> (r: Option<u64>)
    ensures
        r is Some <==> parses_as_u64(s@),
        r matches Some(v) ==> v == u64_value_of(s@),
{
    let n = s.len();
    let start: usize = if n >= 1 && s[0] == '+' {
        1
    } else {
        0
    };
    let ghost d = u64_literal_digits(s@);
    proof {
        assert(d =~= s@.skip(start as int));
    }
    if n == start {
        return None;
    }
    let mut acc: u64 = 0;
    let mut i: usize = start;
    while i < n
        invariant
            start <= i <= n,
            n == s@.len(),
            d == s@.skip(start as int),
            d == u64_literal_digits(s@),
            acc == digits_val(d.take(i - start)),
            forall|t: int| 0 <= t < i - start ==> is_dec_digit(#[trigger] d[t]),
        decreases n - i,
    {
        let c = s[i];
        let cv = c as u32;
        if cv < 48 || cv > 57 {
            proof {
                assert(d[i - start] == s@[i as int]);
                assert(!is_dec_digit(d[i - start]));
            }
            return None;
        }
        let digit = (cv - 48) as u64;
        let next = match acc.checked_mul(10) {
            Some(m) => m.checked_add(digit),
            None => None,
        };
        match next {
            Some(v) => {
                proof {
                    assert(d.take(i - start + 1).drop_last() =~= d.take(i - start));
                    assert(d.take(i - start + 1).last() == d[i - start]);
                    assert(d[i - start] == s@[i as int]);
                }
                acc = v;
            },
            None => {
                proof {
                    assert(d.take(i - start + 1).drop_last() =~= d.take(i - start));
                    assert(d.take(i - start + 1).last() == d[i - start]);
                    assert(d[i - start] == s@[i as int]);
                    assert(digits_val(d.take(i - start + 1)) > u64::MAX);
                    lemma_digits_val_prefix(d, i - start + 1);
                }
                return None;
            },
        }
        i = i + 1;
    }
    proof {
        assert(d.take(n - start) =~= d);
    }
    Some(acc)
}

/// The index an enumeration lookup yields for a cell: the position of
/// the last value equal to it, matching a map built by inserting the
/// values in order.
pub open spec fn enum_index_spec(values: Seq<Seq<char>>, cell: Seq<char>) -> Option<int>
    decreases values.len(),
{
    if values.len() == 0 {
        None
    } else if values.last() == cell {
        Some(values.len() - 1)
    } else {
        enum_index_spec(values.drop_last(), cell)
    }
}

/// Compares two character lists.
pub(crate) fn chars_equal(a: &[char], b: &[char]) -> (r: bool)
    ensures
        r == (a@ == b@),
{
    if a.len() != b.len() {
        return false;
    }
    let mut i: usize = 0;
    while i < a.len()
        invariant
            i <= a@.len(),
            a@.len() == b@.len(),
            forall|t: int| 0 <= t < i ==> a@[t] == b@[t],
        decreases a@.len() - i,
    {
        if a[i] != b[i] {
            return false;
        }
        i = i + 1;
    }
    proof {
        assert(a@ =~= b@);
    }
    true
}

/// Looks a cell up in an enumeration's value list, later entries taking
/// precedence over earlier duplicates.
pub fn enum_index_of(values: &Vec<String>, cell: &[char]) -> (r: Option<u64>)
    ensures
        r is Some <==> enum_index_spec(values.deep_view(), cell@) is Some,
        r matches Some(v) ==> Some(v as int) == enum_index_spec(values.deep_view(), cell@),
{
    let ghost vals = values.deep_view();
    let mut j: usize = values.len();
    proof {
        assert(vals.take(vals.len() as int) =~= vals);
        assert(vals.len() == values@.len());
    }
    while j > 0
        invariant
            j <= values@.len(),
            vals == values.deep_view(),
            vals.len() == values@.len(),
            enum_index_spec(vals, cell@) == enum_index_spec(vals.take(j as int), cell@),
        decreases j,
    {
        j = j - 1;
        let value_chars = str_to_chars(values[j].as_str());
        proof {
            assert(value_chars@ == vals[j as int]);
            assert(vals.take(j + 1).last() == vals[j as int]);
            assert(vals.take(j + 1).drop_last() =~= vals.take(j as int));
        }
        if chars_equal(value_chars.as_slice(), cell) {
            proof {
                assert(enum_index_spec(vals.take(j + 1), cell@) == Some(j as int));
            }
            return Some(j as u64);
        }
    }
    proof {
        assert(vals.take(0) =~= Seq::<Seq<char>>::empty());
    }
    None
}

} // verus!
