//! Matching of names and numbers in text.
use vstd::prelude::*;

verus! {

/// `needle` occurs in `hay`, at some place.
pub open spec fn occurs(needle: Seq<char>, hay: Seq<char>) -> bool {
    exists|i: int| #[trigger] occurs_at(needle, hay, i)
}

/// `needle` occurs in `hay` at place `i`.
pub open spec fn occurs_at(needle: Seq<char>, hay: Seq<char>, i: int) -> bool {
    0 <= i && i + needle.len() <= hay.len() && hay.subrange(i, i + needle.len()) == needle
}

/// The characters of a string.
pub fn characters(s: &str) -> (v: Vec<char>)
    ensures
        v@ == s@,
{
    let n = s.unicode_len();
    let mut v: Vec<char> = Vec::new();
    let mut i: usize = 0;
    while i < n
        invariant
            i <= n,
            n == s@.len(),
            v@ == s@.take(i as int),
        decreases n - i,
    {
        v.push(s.get_char(i));
        proof {
            assert(s@.take(i + 1) == s@.take(i as int).push(s@[i as int]));
        }
        i = i + 1;
    }
    proof {
        assert(s@.take(n as int) == s@);
    }
    v
}

/// `hay` contains `needle`.
pub fn contains(hay: &str, needle: &str) -> (r: bool)
    ensures
        r == occurs(needle@, hay@),
{
    let h = characters(hay);
    let n = characters(needle);
    if n.len() > h.len() {
        return false;
    }
    if n.len() == 0 {
        proof {
            assert(hay@.subrange(0, 0) == needle@);
            assert(occurs_at(needle@, hay@, 0));
        }
        return true;
    }
    let last: usize = h.len() - n.len();
    let mut i: usize = 0;
    while i <= last
        invariant
            h@ == hay@,
            n@ == needle@,
            n.len() > 0,
            last == h.len() - n.len(),
            i <= last + 1,
            forall|k: int| 0 <= k < i ==> !occurs_at(needle@, hay@, k),
        decreases last + 1 - i,
    {
        let mut j: usize = 0;
        while j < n.len() && h[i + j] == n[j]
            invariant
                i + n.len() <= h.len(),
                j <= n.len(),
                forall|k: int| 0 <= k < j ==> h[i + k] == n[k],
            decreases n.len() - j,
        {
            j = j + 1;
        }
        if j == n.len() {
            proof {
                assert(hay@.subrange(i as int, i + needle@.len()) == needle@);
                assert(occurs_at(needle@, hay@, i as int));
            }
            return true;
        }
        proof {
            assert(hay@.subrange(i as int, i + needle@.len())[j as int] != needle@[j as int]);
        }
        i = i + 1;
    }
    false
}

/// `found` is the first of `texts` in which `needle` occurs, if it occurs in any.
pub open spec fn is_first(found: Option<usize>, texts: Seq<Seq<char>>, needle: Seq<char>) -> bool {
    match found {
        Some(i) => {
            &&& i < texts.len()
            &&& occurs(needle, texts[i as int])
            &&& forall|j: int| 0 <= j < i ==> !occurs(needle, #[trigger] texts[j])
        },
        None => forall|j: int| 0 <= j < texts.len() ==> !occurs(needle, #[trigger] texts[j]),
    }
}

/// The texts of strings.
pub open spec fn texts(names: Seq<String>) -> Seq<Seq<char>> {
    Seq::new(names.len(), |i: int| names[i]@)
}

/// The first of `names` that contains `needle`.
pub fn position_containing(names: &[String], needle: &str) -> (r: Option<usize>)
    ensures
        is_first(r, texts(names@), needle@),
{
    let mut i: usize = 0;
    while i < names.len()
        invariant
            i <= names@.len(),
            forall|j: int| 0 <= j < i ==> !occurs(needle@, names@[j]@),
        decreases names@.len() - i,
    {
        if contains(names[i].as_str(), needle) {
            return Some(i);
        }
        i = i + 1;
    }
    None
}

/// What [`str::to_lowercase`] makes of a text.
pub uninterp spec fn lowered(s: Seq<char>) -> Seq<char>;

/// The lowercase texts of strings.
pub open spec fn lowered_texts(names: Seq<String>) -> Seq<Seq<char>> {
    Seq::new(names.len(), |i: int| lowered(names[i]@))
}

/// Calls [`str::to_lowercase`]. The result is a function of the text alone: the
/// mapping is the one of the Unicode tables, in no locale.
#[verifier::external_body]
fn lowercase(s: &str) -> (r: String)
    ensures
        r@ == lowered(s@),
{
    s.to_lowercase()
}

/// The first of `names` that contains `needle`, ignoring case.
pub fn position_containing_ignoring_case(names: &[String], needle: &str) -> (r: Option<usize>)
    ensures
        is_first(r, lowered_texts(names@), lowered(needle@)),
{
    let needle = lowercase(needle);
    let mut low: Vec<String> = Vec::new();
    let mut i: usize = 0;
    while i < names.len()
        invariant
            i <= names@.len(),
            low.len() == i,
            forall|j: int| 0 <= j < i ==> #[trigger] low[j]@ == lowered(names@[j]@),
        decreases names@.len() - i,
    {
        low.push(lowercase(names[i].as_str()));
        i = i + 1;
    }
    proof {
        assert(texts(low@) == lowered_texts(names@));
    }
    position_containing(low.as_slice(), needle.as_str())
}

/// A decimal digit.
pub open spec fn is_digit(c: char) -> bool {
    '0' <= c && c <= '9'
}

/// The number that digits denote.
pub open spec fn decimal(s: Seq<char>) -> int
    decreases s.len(),
{
    if s.len() == 0 {
        0
    } else {
        decimal(s.drop_last()) * 10 + (s.last() as int - '0' as int)
    }
}

/// The digits of a number: what follows an optional plus sign.
pub open spec fn unsigned_part(s: Seq<char>) -> Seq<char> {
    if s.len() > 0 && s[0] == '+' {
        s.skip(1)
    } else {
        s
    }
}

/// A text that denotes an index: an optional plus sign and then digits only, of
/// a number that a `usize` holds.
pub open spec fn index_of(s: Seq<char>) -> Option<int> {
    let d = unsigned_part(s);
    if d.len() > 0 && (forall|i: int| 0 <= i < d.len() ==> is_digit(#[trigger] d[i])) && decimal(d)
        <= usize::MAX {
        Some(decimal(d))
    } else {
        None
    }
}

proof fn lemma_decimal_prefix(s: Seq<char>, k: int)
    requires
        0 <= k <= s.len(),
        forall|i: int| 0 <= i < s.len() ==> is_digit(#[trigger] s[i]),
    ensures
        0 <= decimal(s.take(k)) <= decimal(s),
    decreases s.len(),
{
    if k == s.len() {
        assert(s.take(k) == s);
        if s.len() > 0 {
            lemma_decimal_prefix(s.drop_last(), s.len() - 1);
            assert(s.drop_last().take(s.len() - 1) == s.drop_last());
            assert(is_digit(s[s.len() - 1]));
        }
    } else {
        lemma_decimal_prefix(s.drop_last(), k);
        assert(s.drop_last().take(k) == s.take(k));
        assert(is_digit(s[s.len() - 1]));
    }
}

/// Read an index.
pub fn parse_index(s: &str) -> (r: Option<usize>)
    ensures
        r is Some <==> index_of(s@) is Some,
        r is Some ==> r->0 == index_of(s@)->0,
{
    let v = characters(s);
    let start: usize = if v.len() > 0 && v[0] == '+' {
        1
    } else {
        0
    };
    let ghost d = unsigned_part(s@);
    proof {
        assert(d == s@.skip(start as int));
    }
    if v.len() == start {
        return None;
    }
    let mut n: usize = 0;
    let mut i: usize = start;
    while i < v.len()
        invariant
            v@ == s@,
            start <= i <= v.len(),
            d == s@.skip(start as int),
            d == unsigned_part(s@),
            forall|j: int| 0 <= j < i - start ==> is_digit(#[trigger] d[j]),
            n == decimal(d.take(i - start)),
        decreases v.len() - i,
    {
        let c = v[i];
        proof {
            let k = i - start;
            assert(d[k] == c);
            assert(d.take(k + 1).drop_last() == d.take(k));
            assert(d.take(k + 1).last() == c);
        }
        if !('0' <= c && c <= '9') {
            proof {
                assert(!is_digit(d[i - start]));
            }
            return None;
        }
        let digit: usize = (c as u32 - '0' as u32) as usize;
        if n > (usize::MAX - digit) / 10 {
            proof {
                let k = i - start;
                assert(decimal(d.take(k + 1)) == n * 10 + digit);
                if forall|j: int| 0 <= j < d.len() ==> is_digit(#[trigger] d[j]) {
                    lemma_decimal_prefix(d, k + 1);
                }
            }
            return None;
        }
        n = n * 10 + digit;
        i = i + 1;
    }
    proof {
        assert(d.take(i - start) == d);
    }
    Some(n)
}

/// A text contains another where it is made of something, the other text, and something
/// more (which are returned).
pub proof fn contained_text_has_a_place(hay: &str, needle: &str, r: bool) -> (around: (
    Seq<char>,
    Seq<char>,
))
    requires
        call_ensures(contains, (hay, needle), r),
        r,
    ensures
        hay@ == around.0 + needle@ + around.1,
{
    let i = choose|i: int| #[trigger] occurs_at(needle@, hay@, i);
    let around = (hay@.take(i), hay@.skip(i + needle@.len()));
    assert(hay@ =~= around.0 + needle@ + around.1);
    around
}

/// And it does so wherever it is made that way.
pub proof fn text_with_a_place_is_contained(
    hay: &str,
    needle: &str,
    r: bool,
    before: Seq<char>,
    after: Seq<char>,
)
    requires
        call_ensures(contains, (hay, needle), r),
        hay@ == before + needle@ + after,
    ensures
        r,
{
    let i = before.len() as int;
    assert(hay@.subrange(i, i + needle@.len()) =~= needle@);
    assert(occurs_at(needle@, hay@, i));
}

/// The first of the names that contains the text is found, and none is passed over.
pub proof fn no_match_is_passed_over(names: &[String], needle: &str, r: Option<usize>, j: int)
    requires
        call_ensures(position_containing, (names, needle), r),
        0 <= j < names@.len(),
    ensures
        r is Some ==> r->0 < names@.len(),
        r is Some && r->0 == j ==> occurs(needle@, names@[j]@),
        r is None || j < r->0 ==> !occurs(needle@, names@[j]@),
{
    assert(texts(names@)[j] == names@[j]@);
}

/// The same of names and text in lowercase.
pub proof fn no_match_in_lowercase_is_passed_over(
    names: &[String],
    needle: &str,
    r: Option<usize>,
    j: int,
)
    requires
        call_ensures(position_containing_ignoring_case, (names, needle), r),
        0 <= j < names@.len(),
    ensures
        r is Some ==> r->0 < names@.len(),
        r is Some && r->0 == j ==> occurs(lowered(needle@), lowered(names@[j]@)),
        r is None || j < r->0 ==> !occurs(lowered(needle@), lowered(names@[j]@)),
{
    assert(lowered_texts(names@)[j] == lowered(names@[j]@));
}

/// Decimal digits have their weights: those in front of `n` others count `10^n` fold, and a
/// single digit counts for itself.
pub proof fn digits_have_their_weights(front: Seq<char>, back: Seq<char>, digit: char)
    ensures
        decimal(front + back) == decimal(front) * vstd::arithmetic::power::pow(10, back.len())
            + decimal(back),
        decimal(seq![digit]) == digit as int - '0' as int,
    decreases back.len(),
{
    reveal(vstd::arithmetic::power::pow);
    reveal_with_fuel(decimal, 2);
    assert(seq![digit].drop_last() =~= Seq::<char>::empty());
    if back.len() == 0 {
        assert(front + back =~= front);
        assert(decimal(front) * 1 == decimal(front));
    } else {
        let rest = back.drop_last();
        digits_have_their_weights(front, rest, digit);
        assert((front + back).drop_last() =~= front + rest);
        let (d, p) = (decimal(front), vstd::arithmetic::power::pow(10, rest.len()));
        assert(vstd::arithmetic::power::pow(10, back.len()) == 10 * p);
        assert((d * p) * 10 == d * (10 * p)) by (nonlinear_arith);
    }
}

/// An index is read from digits alone, with or without a plus sign in front, as the number
/// that they denote, if a `usize` holds it. The digits are the ten of the ASCII code.
pub proof fn indices_are_decimal_numbers(s: &str, digits: Seq<char>, r: Option<usize>, c: char)
    requires
        call_ensures(parse_index, (s,), r),
        s@ == seq!['+'] + digits || s@ == digits && (digits.len() > 0 ==> digits[0] != '+'),
    ensures
        r is Some <==> digits.len() > 0 && (forall|i: int|
            0 <= i < digits.len() ==> is_digit(#[trigger] digits[i])) && decimal(digits)
            <= usize::MAX,
        r is Some ==> r->0 == decimal(digits),
        is_digit(c) <==> 48 <= c as int <= 57,
{
    assert(unsigned_part(s@) =~= digits);
}

/// A number that is read is one that a `usize` holds.
pub proof fn lemma_index_range(s: Seq<char>)
    ensures
        index_of(s) is Some ==> 0 <= index_of(s)->0 <= usize::MAX,
{
    let d = unsigned_part(s);
    if index_of(s) is Some {
        lemma_decimal_prefix(d, 0);
        assert(d.take(0) =~= Seq::<char>::empty());
    }
}

} // verus!
