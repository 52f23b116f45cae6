//! Small text utilities shared by the other modules: character classes,
//! blank and trimmed text, prefix tests and decimal rendering.
//!
//! Strings are modelled by their view, a `Seq<char>`. Algorithms that need
//! random access first copy a string into a `Vec<char>` and hand results back
//! as sub-strings of their input.

use vstd::prelude::*;
use vstd::string::*;

verus! {

/// The view of every string of a sequence, in order.
pub open spec fn views(v: Seq<String>) -> Seq<Seq<char>> {
    Seq::new(v.len(), |i: int| v[i]@)
}

/// Whether `c` is white space: the code points with the Unicode property
/// `White_Space`.
pub open spec fn is_space(c: char) -> bool {
    let u = c as u32;
    ||| 0x09 <= u <= 0x0d
    ||| u == 0x20
    ||| u == 0x85
    ||| u == 0xa0
    ||| u == 0x1680
    ||| 0x2000 <= u <= 0x200a
    ||| u == 0x2028
    ||| u == 0x2029
    ||| u == 0x202f
    ||| u == 0x205f
    ||| u == 0x3000
}

/// Whether a text holds nothing but white space (the empty text included).
pub open spec fn is_blank(s: Seq<char>) -> bool {
    forall|i: int| 0 <= i < s.len() ==> is_space(#[trigger] s[i])
}

/// Where the trimmed text starts: the index of the first character that is
/// not white space, or the length of `s` if it is blank.
pub open spec fn trim_start(s: Seq<char>) -> int
    decreases s.len(),
{
    if s.len() == 0 || !is_space(s[0]) {
        0
    } else {
        1 + trim_start(s.drop_first())
    }
}

/// Where the trimmed text ends: one past the index of the last character that
/// is not white space, or 0 if `s` is blank.
pub open spec fn trim_end(s: Seq<char>) -> int
    decreases s.len(),
{
    if s.len() == 0 || !is_space(s.last()) {
        s.len() as int
    } else {
        trim_end(s.drop_last())
    }
}

/// `s` without leading and trailing white space.
pub open spec fn trimmed(s: Seq<char>) -> Seq<char> {
    if is_blank(s) {
        Seq::empty()
    } else {
        s.subrange(trim_start(s), trim_end(s))
    }
}

/// The part of `s` before its first line feed; all of `s` if it has none.
pub open spec fn first_line(s: Seq<char>) -> Seq<char>
    decreases s.len(),
{
    if s.len() == 0 || s[0] == '\n' {
        Seq::empty()
    } else {
        seq![s[0]] + first_line(s.drop_first())
    }
}

/// The decimal digit for `d`, which is below ten.
pub open spec fn digit_char(d: nat) -> char {
    if d == 0 {
        '0'
    } else if d == 1 {
        '1'
    } else if d == 2 {
        '2'
    } else if d == 3 {
        '3'
    } else if d == 4 {
        '4'
    } else if d == 5 {
        '5'
    } else if d == 6 {
        '6'
    } else if d == 7 {
        '7'
    } else if d == 8 {
        '8'
    } else {
        '9'
    }
}

/// The decimal numeral of `n`, without leading zeros.
pub open spec fn decimal(n: nat) -> Seq<char>
    decreases n,
{
    if n < 10 {
        seq![digit_char(n)]
    } else {
        decimal(n / 10).push(digit_char(n % 10))
    }
}

/// Before the start of the trimmed text stands white space only, and at it
/// none; it is the end of the text exactly when the text is blank.
pub proof fn lemma_trim_start_bounds(s: Seq<char>)
    ensures
        0 <= trim_start(s) <= s.len(),
        forall|i: int| 0 <= i < trim_start(s) ==> is_space(#[trigger] s[i]),
        trim_start(s) < s.len() ==> !is_space(s[trim_start(s)]),
        trim_start(s) == s.len() <==> is_blank(s),
    decreases s.len(),
{
    if s.len() == 0 || !is_space(s[0]) {
    } else {
        let t = s.drop_first();
        lemma_trim_start_bounds(t);
        assert forall|i: int| 0 <= i < trim_start(s) implies is_space(#[trigger] s[i]) by {
            if i > 0 {
                assert(s[i] == t[i - 1]);
            }
        }
        if trim_start(t) < t.len() {
            assert(s[trim_start(s)] == t[trim_start(t)]);
        }
        if is_blank(s) {
            assert forall|i: int| 0 <= i < t.len() implies is_space(#[trigger] t[i]) by {
                assert(t[i] == s[i + 1]);
            }
        }
        if is_blank(t) {
            assert forall|i: int| 0 <= i < s.len() implies is_space(#[trigger] s[i]) by {
                if i > 0 {
                    assert(s[i] == t[i - 1]);
                }
            }
        }
    }
}

/// From the end of the trimmed text on stands white space only, and before
/// it none; it is the start of the text exactly when the text is blank.
pub proof fn lemma_trim_end_bounds(s: Seq<char>)
    ensures
        0 <= trim_end(s) <= s.len(),
        forall|i: int| trim_end(s) <= i < s.len() ==> is_space(#[trigger] s[i]),
        trim_end(s) > 0 ==> !is_space(s[trim_end(s) - 1]),
        trim_end(s) == 0 <==> is_blank(s),
    decreases s.len(),
{
    if s.len() == 0 || !is_space(s.last()) {
        if s.len() > 0 {
            assert(!is_space(s[s.len() - 1]));
        }
    } else {
        let t = s.drop_last();
        lemma_trim_end_bounds(t);
        assert forall|i: int| trim_end(s) <= i < s.len() implies is_space(#[trigger] s[i]) by {
            if i < t.len() {
                assert(s[i] == t[i]);
            }
        }
        if trim_end(t) > 0 {
            assert(s[trim_end(s) - 1] == t[trim_end(t) - 1]);
        }
        if is_blank(s) {
            assert forall|i: int| 0 <= i < t.len() implies is_space(#[trigger] t[i]) by {
                assert(t[i] == s[i]);
            }
        }
        if is_blank(t) {
            assert forall|i: int| 0 <= i < s.len() implies is_space(#[trigger] s[i]) by {
                if i < t.len() {
                    assert(s[i] == t[i]);
                }
            }
        }
    }
}

/// Copies the characters of a string into a vector.
pub fn to_chars(s: &str) -> (v: Vec<char>)
    ensures
        v@ == s@,
{
    let mut v: Vec<char> = Vec::new();
    for c in it: s.chars()
        invariant
            it.seq() == s@,
            v@ == s@.take(it.index()),
    {
        v.push(c);
        assert(s@.take(it.index() + 1) =~= s@.take(it.index()).push(s@[it.index()]));
    }
    assert(s@.take(s@.len() as int) =~= s@);
    v
}

/// Tests a character for white space.
pub fn char_is_space(c: char) -> (r: bool)
    ensures
        r == is_space(c),
{
    let u: u32 = c as u32;
    (0x09 <= u && u <= 0x0d) || u == 0x20 || u == 0x85 || u == 0xa0 || u == 0x1680 || (0x2000 <= u
        && u <= 0x200a) || u == 0x2028 || u == 0x2029 || u == 0x202f || u == 0x205f || u == 0x3000
}

/// Tests a text for being blank.
pub fn text_is_blank(s: &str) -> (r: bool)
    ensures
        r == is_blank(s@),
{
    let mut blank = true;
    for c in it: s.chars()
        invariant
            it.seq() == s@,
            blank == is_blank(s@.take(it.index())),
    {
        let ghost before = s@.take(it.index());
        let ghost after = s@.take(it.index() + 1);
        let space = char_is_space(c);
        proof {
            assert(after =~= before.push(c));
            if blank && space {
                assert forall|i: int| 0 <= i < after.len() implies is_space(#[trigger] after[i]) by {
                    if i < before.len() {
                        assert(after[i] == before[i]);
                    }
                }
            } else if !space {
                assert(after[after.len() - 1] == c);
            } else {
                let j = choose|j: int| 0 <= j < before.len() && !is_space(#[trigger] before[j]);
                assert(after[j] == before[j]);
            }
        }
        blank = blank && space;
    }
    assert(s@.take(s@.len() as int) =~= s@);
    blank
}

/// Returns a text without its leading and trailing white space.
pub fn trim_text(s: &str) -> (r: String)
    ensures
        r@ == trimmed(s@),
{
    let v = to_chars(s);
    let n = v.len();
    let mut start: usize = 0;
    while start < n && char_is_space(v[start])
        invariant
            n == v.len(),
            start <= n,
            forall|i: int| 0 <= i < start ==> is_space(#[trigger] v@[i]),
        decreases n - start,
    {
        start += 1;
    }
    proof {
        lemma_trim_start_bounds(v@);
        lemma_trim_end_bounds(v@);
    }
    if start == n {
        assert(is_blank(v@));
        return String::new();
    }
    assert(!is_space(v@[start as int]));
    assert(start == trim_start(v@)) by {
        let t = trim_start(v@);
        if t < start {
            assert(is_space(v@[t]));
        }
        if t > start {
            assert(is_space(v@[start as int]));
        }
    }
    let mut end: usize = n;
    while end > start && char_is_space(v[end - 1])
        invariant
            n == v.len(),
            start <= end <= n,
            !is_space(v@[start as int]),
            forall|i: int| end <= i < n ==> is_space(#[trigger] v@[i]),
        decreases end,
    {
        end -= 1;
    }
    assert(end > start);
    assert(end == trim_end(v@)) by {
        let t = trim_end(v@);
        if t < end {
            assert(is_space(v@[end - 1]));
        }
        if t > end {
            assert(is_space(v@[t - 1]));
        }
    }
    assert(!is_blank(v@));
    s.substring_char(start, end).to_owned()
}

/// Returns the first line of a text, without the line feed.
pub fn first_line_of(s: &str) -> (r: String)
    ensures
        r@ == first_line(s@),
{
    let v = to_chars(s);
    let n = v.len();
    let mut k: usize = 0;
    proof {
        assert(v@.skip(0) =~= v@);
        assert(v@.take(0) + first_line(v@) =~= first_line(v@));
    }
    while k < n && v[k] != '\n'
        invariant
            n == v.len(),
            k <= n,
            first_line(v@) == v@.take(k as int) + first_line(v@.skip(k as int)),
        decreases n - k,
    {
        proof {
            let rest = v@.skip(k as int);
            assert(rest.drop_first() =~= v@.skip(k + 1));
            assert(v@.take(k + 1) =~= v@.take(k as int) + seq![rest[0]]);
            assert(v@.take(k as int) + (seq![rest[0]] + first_line(rest.drop_first())) =~= v@.take(
                k + 1,
            ) + first_line(v@.skip(k + 1)));
        }
        k += 1;
    }
    proof {
        let rest = v@.skip(k as int);
        assert(first_line(rest) =~= Seq::<char>::empty());
        assert(v@.take(k as int) + Seq::<char>::empty() =~= v@.subrange(0, k as int));
    }
    s.substring_char(0, k).to_owned()
}

fn digit_text(d: u64) -> (r: &'static str)
    requires
        d < 10,
    ensures
        r@ == seq![digit_char(d as nat)],
{
    proof {
        reveal_strlit("0");
        reveal_strlit("1");
        reveal_strlit("2");
        reveal_strlit("3");
        reveal_strlit("4");
        reveal_strlit("5");
        reveal_strlit("6");
        reveal_strlit("7");
        reveal_strlit("8");
        reveal_strlit("9");
    }
    let r = if d == 0 {
        "0"
    } else if d == 1 {
        "1"
    } else if d == 2 {
        "2"
    } else if d == 3 {
        "3"
    } else if d == 4 {
        "4"
    } else if d == 5 {
        "5"
    } else if d == 6 {
        "6"
    } else if d == 7 {
        "7"
    } else if d == 8 {
        "8"
    } else {
        "9"
    };
    assert(r@ =~= seq![digit_char(d as nat)]);
    r
}

/// Renders a number as its decimal numeral.
pub fn render_decimal(n: u64) -> (r: String)
    ensures
        r@ == decimal(n as nat),
    decreases n,
{
    if n < 10 {
        String::from_str(digit_text(n))
    } else {
        let mut r = render_decimal(n / 10);
        r.append(digit_text(n % 10));
        assert(r@ =~= decimal((n / 10) as nat).push(digit_char((n % 10) as nat)));
        r
    }
}

/// Copies a list of strings.
pub fn copy_strings(v: &Vec<String>) -> (r: Vec<String>)
    ensures
        views(r@) == views(v@),
{
    let mut r: Vec<String> = Vec::new();
    let n = v.len();
    let mut i: usize = 0;
    while i < n
        invariant
            n == v.len(),
            i <= n,
            r.len() == i,
            forall|k: int| 0 <= k < i ==> (#[trigger] r@[k])@ == v@[k]@,
        decreases n - i,
    {
        r.push(v[i].clone());
        i += 1;
    }
    assert(views(r@) =~= views(v@));
    r
}

/// Whether a list of strings holds `s`.
pub fn holds(v: &Vec<String>, s: &String) -> (r: bool)
    ensures
        r == views(v@).contains(s@),
{
    let n = v.len();
    let mut i: usize = 0;
    while i < n
        invariant
            n == v.len(),
            i <= n,
            forall|k: int| 0 <= k < i ==> (#[trigger] views(v@)[k]) != s@,
        decreases n - i,
    {
        if v[i] == *s {
            assert(views(v@)[i as int] == s@);
            return true;
        }
        i += 1;
    }
    false
}

/// Whether `pat` stands in `s` at `i`.
pub open spec fn occurs_at(s: Seq<char>, pat: Seq<char>, i: int) -> bool {
    0 <= i && i + pat.len() <= s.len() && s.subrange(i, i + pat.len()) == pat
}

/// Whether `pat` stands somewhere in `s`.
pub open spec fn contains_text(s: Seq<char>, pat: Seq<char>) -> bool {
    exists|i: int| occurs_at(s, pat, i)
}

/// Whether `s` begins with `pat`.
pub open spec fn starts_with(s: Seq<char>, pat: Seq<char>) -> bool {
    occurs_at(s, pat, 0)
}

/// Whether `s` ends with `pat`.
pub open spec fn ends_with(s: Seq<char>, pat: Seq<char>) -> bool {
    occurs_at(s, pat, s.len() - pat.len())
}

/// Tests whether `pat` stands in `s` at `i`.
pub fn matches_at(s: &Vec<char>, pat: &Vec<char>, i: usize) -> (r: bool)
    ensures
        r == occurs_at(s@, pat@, i as int),
{
    let n = s.len();
    let m = pat.len();
    if i > n || m > n - i {
        return false;
    }
    let mut k: usize = 0;
    while k < m
        invariant
            m == pat.len(),
            n == s.len(),
            i + m <= n,
            k <= m,
            forall|j: int| 0 <= j < k ==> s@[i + j] == pat@[j],
        decreases m - k,
    {
        if s[i + k] != pat[k] {
            assert(s@.subrange(i as int, i + m)[k as int] != pat@[k as int]);
            return false;
        }
        k += 1;
    }
    assert(s@.subrange(i as int, i + m) =~= pat@);
    true
}

/// Tests whether `pat` stands somewhere in `s`.
pub fn find_text(s: &Vec<char>, pat: &Vec<char>) -> (r: bool)
    ensures
        r == contains_text(s@, pat@),
{
    let n = s.len();
    let m = pat.len();
    if m > n {
        return false;
    }
    let last = n - m;
    let mut i: usize = 0;
    while i < last
        invariant
            m == pat.len(),
            n == s.len(),
            last == n - m,
            i <= last,
            forall|j: int| 0 <= j < i ==> !occurs_at(s@, pat@, j),
        decreases last - i,
    {
        if matches_at(s, pat, i) {
            return true;
        }
        i += 1;
    }
    matches_at(s, pat, last)
}

/// Tests whether `s` ends with `pat`.
pub fn has_suffix(s: &Vec<char>, pat: &Vec<char>) -> (r: bool)
    ensures
        r == ends_with(s@, pat@),
{
    if pat.len() > s.len() {
        false
    } else {
        matches_at(s, pat, s.len() - pat.len())
    }
}

} // verus!
