use vstd::prelude::*;

verus! {

// ---------------------------------------------------------------------------
// Characters
// ---------------------------------------------------------------------------

/// The Unicode `White_Space` property, which `char::is_whitespace`,
/// `str::trim` and `str::split_whitespace` go by.
pub open spec fn is_ws(c: char) -> bool {
    let v = c as u32;
    ||| 0x9 <= v <= 0xd
    ||| v == 0x20
    ||| v == 0x85
    ||| v == 0xa0
    ||| v == 0x1680
    ||| 0x2000 <= v <= 0x200a
    ||| v == 0x2028
    ||| v == 0x2029
    ||| v == 0x202f
    ||| v == 0x205f
    ||| v == 0x3000
}

/// An ASCII decimal digit.
pub open spec fn is_digit(c: char) -> bool {
    48 <= c as u32 <= 57
}

pub open spec fn digit_value(c: char) -> int {
    c as u32 - 48
}

/// Whether `c` is white space in the Unicode sense.
pub fn is_whitespace(c: char) -> (r: bool)
    ensures
        r == is_ws(c),
{
    let v = c as u32;
    (0x9 <= v && v <= 0xd) || v == 0x20 || v == 0x85 || v == 0xa0 || v == 0x1680 || (0x2000 <= v
        && v <= 0x200a) || v == 0x2028 || v == 0x2029 || v == 0x202f || v == 0x205f || v == 0x3000
}

pub fn is_ascii_digit(c: char) -> (r: bool)
    ensures
        r == is_digit(c),
{
    let v = c as u32;
    48 <= v && v <= 57
}

/// The views of a sequence of character vectors.
pub open spec fn views(v: Seq<Vec<char>>) -> Seq<Seq<char>> {
    v.map_values(|x: Vec<char>| x@)
}

// ---------------------------------------------------------------------------
// Lines
// ---------------------------------------------------------------------------

/// Reading `s` left to right: the finished lines, and the line being read.
pub open spec fn lines_acc(s: Seq<char>) -> (Seq<Seq<char>>, Seq<char>)
    decreases s.len(),
{
    if s.len() == 0 {
        (seq![], seq![])
    } else {
        let (done, cur) = lines_acc(s.drop_last());
        if s.last() == '\n' {
            (done.push(cur), seq![])
        } else {
            (done, cur.push(s.last()))
        }
    }
}

/// The pieces of `s` between line feeds, in order. A trailing carriage
/// return stays on its line (it is white space to every reader here), and
/// a text that ends in a line feed has a last, empty, piece.
pub open spec fn lines_of(s: Seq<char>) -> Seq<Seq<char>> {
    lines_acc(s).0.push(lines_acc(s).1)
}

/// Splits `s` at each line feed.
pub fn split_lines(s: &Vec<char>) -> (r: Vec<Vec<char>>)
    ensures
        views(r@) == lines_of(s@),
{
    let mut done: Vec<Vec<char>> = Vec::new();
    let mut cur: Vec<char> = Vec::new();
    let mut i: usize = 0;
    while i < s.len()
        invariant
            i <= s.len(),
            lines_acc(s@.take(i as int)) == (views(done@), cur@),
        decreases s.len() - i,
    {
        let c = s[i];
        assert(s@.take(i + 1).drop_last() =~= s@.take(i as int));
        if c == '\n' {
            let finished = cur;
            cur = Vec::new();
            done.push(finished);
            assert(views(done@) =~= lines_acc(s@.take(i as int)).0.push(finished@));
            assert(cur@ =~= seq![]);
        } else {
            cur.push(c);
        }
        i = i + 1;
    }
    assert(s@.take(s.len() as int) =~= s@);
    let ghost d = done@;
    done.push(cur);
    assert(views(done@) =~= views(d).push(cur@));
    done
}

// ---------------------------------------------------------------------------
// White-space separated words
// ---------------------------------------------------------------------------

/// Reading `s` left to right: the finished words, and the word being read.
pub open spec fn words_acc(s: Seq<char>) -> (Seq<Seq<char>>, Seq<char>)
    decreases s.len(),
{
    if s.len() == 0 {
        (seq![], seq![])
    } else {
        let (done, cur) = words_acc(s.drop_last());
        if is_ws(s.last()) {
            if cur.len() > 0 {
                (done.push(cur), seq![])
            } else {
                (done, cur)
            }
        } else {
            (done, cur.push(s.last()))
        }
    }
}

/// The maximal runs of non-white-space characters of `s`, in order.
pub open spec fn words_of(s: Seq<char>) -> Seq<Seq<char>> {
    let (done, cur) = words_acc(s);
    if cur.len() > 0 {
        done.push(cur)
    } else {
        done
    }
}

/// Splits `s` into its white-space separated words.
pub fn split_whitespace(s: &Vec<char>) -> (r: Vec<Vec<char>>)
    ensures
        views(r@) == words_of(s@),
{
    let mut done: Vec<Vec<char>> = Vec::new();
    let mut cur: Vec<char> = Vec::new();
    let mut i: usize = 0;
    while i < s.len()
        invariant
            i <= s.len(),
            words_acc(s@.take(i as int)) == (views(done@), cur@),
        decreases s.len() - i,
    {
        let c = s[i];
        assert(s@.take(i + 1).drop_last() =~= s@.take(i as int));
        if is_whitespace(c) {
            if cur.len() > 0 {
                let finished = cur;
                cur = Vec::new();
                done.push(finished);
                assert(views(done@) =~= words_acc(s@.take(i as int)).0.push(finished@));
                assert(cur@ =~= seq![]);
            }
        } else {
            cur.push(c);
        }
        i = i + 1;
    }
    assert(s@.take(s.len() as int) =~= s@);
    if cur.len() > 0 {
        let ghost d = done@;
        done.push(cur);
        assert(views(done@) =~= views(d).push(cur@));
    }
    done
}

// ---------------------------------------------------------------------------
// Trimming
// ---------------------------------------------------------------------------

pub open spec fn trim_start(s: Seq<char>) -> Seq<char>
    decreases s.len(),
{
    if s.len() > 0 && is_ws(s[0]) {
        trim_start(s.drop_first())
    } else {
        s
    }
}

pub open spec fn trim_end(s: Seq<char>) -> Seq<char>
    decreases s.len(),
{
    if s.len() > 0 && is_ws(s.last()) {
        trim_end(s.drop_last())
    } else {
        s
    }
}

/// `s` without its leading and trailing white space.
pub open spec fn trim_spec(s: Seq<char>) -> Seq<char> {
    trim_end(trim_start(s))
}

/// Removes leading and trailing white space.
pub fn trim(s: &Vec<char>) -> (r: Vec<char>)
    ensures
        r@ == trim_spec(s@),
{
    let n = s.len();
    let mut i: usize = 0;
    assert(s@.subrange(0, n as int) =~= s@);
    while i < n && is_whitespace(s[i])
        invariant
            i <= n,
            n == s.len(),
            trim_start(s@) == trim_start(s@.subrange(i as int, n as int)),
        decreases n - i,
    {
        assert(s@.subrange(i as int, n as int).drop_first() =~= s@.subrange(i + 1, n as int));
        i = i + 1;
    }
    assert(trim_start(s@.subrange(i as int, n as int)) == s@.subrange(i as int, n as int));
    let mut j: usize = n;
    while j > i && is_whitespace(s[j - 1])
        invariant
            i <= j <= n,
            n == s.len(),
            trim_spec(s@) == trim_end(s@.subrange(i as int, j as int)),
        decreases j,
    {
        assert(s@.subrange(i as int, j as int).drop_last() =~= s@.subrange(i as int, j - 1));
        j = j - 1;
    }
    assert(trim_end(s@.subrange(i as int, j as int)) == s@.subrange(i as int, j as int));
    let mut r: Vec<char> = Vec::new();
    let mut k: usize = i;
    while k < j
        invariant
            i <= k <= j,
            j <= n,
            n == s.len(),
            r@ =~= s@.subrange(i as int, k as int),
        decreases j - k,
    {
        r.push(s[k]);
        k = k + 1;
    }
    r
}

// ---------------------------------------------------------------------------
// Decimal numbers
// ---------------------------------------------------------------------------

pub open spec fn all_digits(s: Seq<char>) -> bool {
    forall|i: int| 0 <= i < s.len() ==> is_digit(#[trigger] s[i])
}

/// The value of a string of decimal digits.
pub open spec fn digits_value(s: Seq<char>) -> int
    decreases s.len(),
{
    if s.len() == 0 {
        0
    } else {
        digits_value(s.drop_last()) * 10 + digit_value(s.last())
    }
}

/// What `str::parse::<u32>` gives: an optional `+`, then one or more
/// decimal digits whose value fits in 32 bits.
pub open spec fn parse_u32_spec(s: Seq<char>) -> Option<u32> {
    let body = if s.len() > 0 && s[0] == '+' {
        s.drop_first()
    } else {
        s
    };
    if body.len() > 0 && all_digits(body) && digits_value(body) <= u32::MAX {
        Some(digits_value(body) as u32)
    } else {
        None
    }
}

proof fn lemma_digits_value_nonneg(s: Seq<char>)
    requires
        all_digits(s),
    ensures
        digits_value(s) >= 0,
    decreases s.len(),
{
    if s.len() > 0 {
        lemma_digits_value_nonneg(s.drop_last());
    }
}

proof fn lemma_digits_value_grows(s: Seq<char>, k: int)
    requires
        all_digits(s),
        0 <= k <= s.len(),
    ensures
        digits_value(s.take(k)) <= digits_value(s),
    decreases s.len(),
{
    if k < s.len() {
        assert(all_digits(s.drop_last()));
        lemma_digits_value_grows(s.drop_last(), k);
        assert(s.drop_last().take(k) =~= s.take(k));
        lemma_digits_value_nonneg(s.drop_last());
    } else {
        assert(s.take(k) =~= s);
    }
}

/// Parses an unsigned 32-bit decimal number.
pub fn parse_u32(s: &Vec<char>) -> (r: Option<u32>)
    ensures
        r == parse_u32_spec(s@),
{
    let n = s.len();
    let mut start: usize = 0;
    if n > 0 && s[0] == '+' {
        start = 1;
    }
    let ghost body = if s@.len() > 0 && s@[0] == '+' {
        s@.drop_first()
    } else {
        s@
    };
    assert(body =~= s@.subrange(start as int, n as int));
    if start == n {
        return None;
    }
    let mut acc: u64 = 0;
    let mut i: usize = start;
    while i < n
        invariant
            start <= i <= n,
            n == s.len(),
            body == s@.subrange(start as int, n as int),
            body == (if s@.len() > 0 && s@[0] == '+' {
                s@.drop_first()
            } else {
                s@
            }),
            all_digits(s@.subrange(start as int, i as int)),
            acc == digits_value(s@.subrange(start as int, i as int)),
            acc <= u32::MAX,
        decreases n - i,
    {
        let c = s[i];
        if !is_ascii_digit(c) {
            assert(body[i - start] == c);
            assert(!all_digits(body));
            return None;
        }
        let d: u32 = c as u32 - 48;
        assert(s@.subrange(start as int, i + 1).drop_last() =~= s@.subrange(
            start as int,
            i as int,
        ));
        assert(digits_value(s@.subrange(start as int, i + 1)) == acc * 10 + d);
        acc = acc * 10 + d as u64;
        assert(all_digits(s@.subrange(start as int, i + 1)));
        if acc > 0xffff_ffffu64 {
            proof {
                if all_digits(body) {
                    assert(body.take(i + 1 - start) =~= s@.subrange(start as int, i + 1));
                    lemma_digits_value_grows(body, i + 1 - start);
                }
            }
            return None;
        }
        i = i + 1;
    }
    Some(acc as u32)
}

/// Whether every character of `s` is an ASCII digit (true of the empty text).
pub fn is_all_digits(s: &Vec<char>) -> (r: bool)
    ensures
        r == all_digits(s@),
{
    let mut i: usize = 0;
    while i < s.len()
        invariant
            i <= s.len(),
            forall|k: int| 0 <= k < i ==> is_digit(#[trigger] s@[k]),
        decreases s.len() - i,
    {
        if !is_ascii_digit(s[i]) {
            return false;
        }
        i = i + 1;
    }
    true
}

} // verus!

verus! {

// ---------------------------------------------------------------------------
// Comparing and searching
// ---------------------------------------------------------------------------

/// Whether two character vectors hold the same text.
pub fn text_eq(a: &Vec<char>, b: &Vec<char>) -> (r: bool)
    ensures
        r == (a@ == b@),
{
    if a.len() != b.len() {
        return false;
    }
    let mut i: usize = 0;
    while i < a.len()
        invariant
            i <= a.len(),
            a.len() == b.len(),
            forall|k: int| 0 <= k < i ==> a@[k] == b@[k],
        decreases a.len() - i,
    {
        if a[i] != b[i] {
            return false;
        }
        i = i + 1;
    }
    assert(a@ =~= b@);
    true
}

pub open spec fn starts_with_spec(s: Seq<char>, prefix: Seq<char>) -> bool {
    prefix.len() <= s.len() && s.take(prefix.len() as int) == prefix
}

/// Whether `s` begins with `prefix`.
pub fn starts_with(s: &Vec<char>, prefix: &Vec<char>) -> (r: bool)
    ensures
        r == starts_with_spec(s@, prefix@),
{
    if prefix.len() > s.len() {
        return false;
    }
    let mut i: usize = 0;
    while i < prefix.len()
        invariant
            i <= prefix.len() <= s.len(),
            forall|k: int| 0 <= k < i ==> s@[k] == prefix@[k],
        decreases prefix.len() - i,
    {
        if s[i] != prefix[i] {
            assert(s@.take(prefix.len() as int)[i as int] != prefix@[i as int]);
            return false;
        }
        i = i + 1;
    }
    assert(s@.take(prefix.len() as int) =~= prefix@);
    true
}

/// `needle` occurs in `s` at position `i`.
pub open spec fn occurs_at(s: Seq<char>, needle: Seq<char>, i: int) -> bool {
    0 <= i && i + needle.len() <= s.len() && s.subrange(i, i + needle.len()) == needle
}

pub open spec fn contains_spec(s: Seq<char>, needle: Seq<char>) -> bool {
    exists|i: int| occurs_at(s, needle, i)
}

fn occurs_at_exec(s: &Vec<char>, needle: &Vec<char>, i: usize) -> (r: bool)
    requires
        i + needle.len() <= s.len(),
    ensures
        r == occurs_at(s@, needle@, i as int),
{
    let mut k: usize = 0;
    while k < needle.len()
        invariant
            k <= needle.len(),
            i + needle.len() <= s.len(),
            forall|m: int| 0 <= m < k ==> s@[i + m] == needle@[m],
        decreases needle.len() - k,
    {
        if s[i + k] != needle[k] {
            assert(s@.subrange(i as int, i + needle.len())[k as int] != needle@[k as int]);
            return false;
        }
        k = k + 1;
    }
    assert(s@.subrange(i as int, i + needle.len()) =~= needle@);
    true
}

/// Whether `needle` occurs anywhere in `s` (the empty text occurs everywhere).
pub fn contains(s: &Vec<char>, needle: &Vec<char>) -> (r: bool)
    ensures
        r == contains_spec(s@, needle@),
{
    if needle.len() > s.len() {
        return false;
    }
    let last = s.len() - needle.len();
    let mut i: usize = 0;
    while i <= last
        invariant
            last + needle.len() == s.len(),
            i <= last,
            forall|k: int| 0 <= k < i ==> !occurs_at(s@, needle@, k),
        ensures
            forall|k: int| 0 <= k <= last ==> !occurs_at(s@, needle@, k),
        decreases last - i,
    {
        if occurs_at_exec(s, needle, i) {
            return true;
        }
        if i == last {
            break;
        }
        i = i + 1;
    }
    assert forall|k: int| !occurs_at(s@, needle@, k) by {
        if 0 <= k && k + needle@.len() <= s@.len() {
            assert(k <= last);
        }
    }
    false
}

/// `i` is the position of the last `c` in `s`.
pub open spec fn is_last_index(s: Seq<char>, c: char, i: int) -> bool {
    0 <= i < s.len() && s[i] == c && forall|k: int| i < k < s.len() ==> s[k] != c
}

/// The position of the last `c` in `s`, if any.
pub open spec fn rfind_spec(s: Seq<char>, c: char) -> Option<int> {
    if exists|i: int| is_last_index(s, c, i) {
        Some(choose|i: int| is_last_index(s, c, i))
    } else {
        None
    }
}

proof fn lemma_last_index_unique(s: Seq<char>, c: char, i: int, j: int)
    requires
        is_last_index(s, c, i),
        is_last_index(s, c, j),
    ensures
        i == j,
{
}

/// Finds the last `c` in `s`.
pub fn rfind(s: &Vec<char>, c: char) -> (r: Option<usize>)
    ensures
        r matches Some(i) ==> rfind_spec(s@, c) == Some(i as int) && is_last_index(s@, c, i as int),
        r is None ==> rfind_spec(s@, c) is None,
        r is None <==> forall|k: int| 0 <= k < s@.len() ==> s@[k] != c,
{
    let mut j: usize = s.len();
    while j > 0
        invariant
            j <= s.len(),
            forall|k: int| j <= k < s@.len() ==> s@[k] != c,
        decreases j,
    {
        if s[j - 1] == c {
            proof {
                assert(is_last_index(s@, c, j - 1));
                let w = choose|i: int| is_last_index(s@, c, i);
                lemma_last_index_unique(s@, c, w, j - 1);
            }
            return Some(j - 1);
        }
        j = j - 1;
    }
    None
}

/// The text after the last `c` in `s`, if `s` holds a `c`.
pub open spec fn after_last(s: Seq<char>, c: char) -> Option<Seq<char>> {
    match rfind_spec(s, c) {
        Some(i) => Some(s.skip(i + 1)),
        None => None,
    }
}

pub fn copy_from(s: &Vec<char>, start: usize) -> (r: Vec<char>)
    requires
        start <= s.len(),
    ensures
        r@ == s@.skip(start as int),
{
    let mut r: Vec<char> = Vec::new();
    let mut k: usize = start;
    while k < s.len()
        invariant
            start <= k <= s.len(),
            r@ =~= s@.subrange(start as int, k as int),
        decreases s.len() - k,
    {
        r.push(s[k]);
        k = k + 1;
    }
    r
}

// ---------------------------------------------------------------------------
// Hexadecimal
// ---------------------------------------------------------------------------

/// The upper-case hexadecimal digit of `d` (0 to 15).
pub open spec fn hex_digit(d: int) -> char {
    if d < 10 {
        (48 + d) as char
    } else {
        (55 + d) as char
    }
}

/// A 16-bit number as four upper-case hexadecimal digits, zero padded,
/// as `format!("{:04X}", v)` writes it.
pub open spec fn hex4_spec(v: u16) -> Seq<char> {
    seq![
        hex_digit(v as int / 4096),
        hex_digit((v as int / 256) % 16),
        hex_digit((v as int / 16) % 16),
        hex_digit(v as int % 16),
    ]
}

fn hex_digit_exec(d: u16) -> (r: char)
    requires
        d < 16,
    ensures
        r == hex_digit(d as int),
{
    if d < 10 {
        ((48 + d) as u8) as char
    } else {
        ((55 + d) as u8) as char
    }
}

/// Formats `v` as four upper-case hexadecimal digits.
pub fn hex4(v: u16) -> (r: Vec<char>)
    ensures
        r@ == hex4_spec(v),
{
    let mut r: Vec<char> = Vec::new();
    r.push(hex_digit_exec(v / 4096));
    r.push(hex_digit_exec((v / 256) % 16));
    r.push(hex_digit_exec((v / 16) % 16));
    r.push(hex_digit_exec(v % 16));
    assert(r@ =~= hex4_spec(v));
    r
}

// ---------------------------------------------------------------------------
// Calls into std whose result is named
// ---------------------------------------------------------------------------

/// What `str::to_lowercase` gives for the text `s` (full Unicode lower-case
/// mapping).
pub uninterp spec fn lowercase_of(s: Seq<char>) -> Seq<char>;

/// Calls `str::to_lowercase` on the text of `s`. The contract claims that
/// the result is a function of the text, and that an ASCII text is lowered
/// letter by letter (`A`-`Z` to `a`-`z`, all else kept), as the Unicode
/// lower-case mapping does for ASCII; the mapping of other characters is
/// left unsaid.
#[verifier::external_body]
pub(crate) fn to_lowercase(s: &Vec<char>) -> (r: Vec<char>)
    ensures
        r@ == lowercase_of(s@),
        is_ascii_text(s@) ==> r@ == ascii_lower(s@),
{
    let text: String = s.iter().collect();
    text.to_lowercase().chars().collect()
}

/// What `String::from_utf8_lossy` decodes from the bytes `b`.
pub uninterp spec fn utf8_lossy_of(b: Seq<u8>) -> Seq<char>;

/// Calls `String::from_utf8_lossy` on `b`. The contract claims that the
/// decoded text is a function of the bytes, and that bytes that are valid
/// UTF-8 decode to the characters they encode; how invalid sequences become
/// replacement characters is left unsaid.
#[verifier::external_body]
pub(crate) fn decode_utf8_lossy(b: &Vec<u8>) -> (r: Vec<char>)
    ensures
        r@ == utf8_lossy_of(b@),
        vstd::utf8::valid_utf8(b@) ==> r@ == vstd::utf8::decode_utf8(b@),
{
    String::from_utf8_lossy(b.as_slice()).chars().collect()
}

} // verus!

verus! {

// ---------------------------------------------------------------------------
// ASCII case
// ---------------------------------------------------------------------------

/// Every character of `s` is ASCII.
pub open spec fn is_ascii_text(s: Seq<char>) -> bool {
    forall|i: int| 0 <= i < s.len() ==> (#[trigger] s[i] as u32) < 128
}

pub open spec fn ascii_lower_char(c: char) -> char {
    if 65 <= c as u32 <= 90 {
        ((c as u32) + 32) as char
    } else {
        c
    }
}

pub open spec fn ascii_upper_char(c: char) -> char {
    if 97 <= c as u32 <= 122 {
        ((c as u32) - 32) as char
    } else {
        c
    }
}

/// `s` with `A`-`Z` lowered to `a`-`z`.
pub open spec fn ascii_lower(s: Seq<char>) -> Seq<char> {
    s.map_values(|c: char| ascii_lower_char(c))
}

/// `s` with `a`-`z` raised to `A`-`Z`.
pub open spec fn ascii_upper(s: Seq<char>) -> Seq<char> {
    s.map_values(|c: char| ascii_upper_char(c))
}

/// Case does not matter to an ASCII text once it is lowered: the text, its
/// upper-case and its lower-case form lower to the same text, and all three
/// are ASCII.
pub proof fn law_ascii_case_ignored(a: Seq<char>)
    requires
        is_ascii_text(a),
    ensures
        is_ascii_text(ascii_upper(a)),
        is_ascii_text(ascii_lower(a)),
        ascii_lower(ascii_upper(a)) == ascii_lower(a),
        ascii_lower(ascii_lower(a)) == ascii_lower(a),
{
    assert forall|i: int| 0 <= i < ascii_upper(a).len() implies (#[trigger] ascii_upper(a)[i] as u32)
        < 128 by {
        assert((a[i] as u32) < 128);
    }
    assert forall|i: int| 0 <= i < ascii_lower(a).len() implies (#[trigger] ascii_lower(a)[i] as u32)
        < 128 by {
        assert((a[i] as u32) < 128);
    }
    assert(ascii_lower(ascii_upper(a)) =~= ascii_lower(a));
    assert(ascii_lower(ascii_lower(a)) =~= ascii_lower(a));
}

// ---------------------------------------------------------------------------
// Facts about occurrence
// ---------------------------------------------------------------------------

/// The empty text occurs in every text.
pub proof fn lemma_contains_empty(s: Seq<char>)
    ensures
        contains_spec(s, Seq::<char>::empty()),
{
    assert(s.subrange(0, 0) =~= Seq::<char>::empty());
    assert(occurs_at(s, Seq::<char>::empty(), 0));
}

/// A text that occurs in a text that occurs in `a` occurs in `a`.
pub proof fn lemma_contains_trans(a: Seq<char>, b: Seq<char>, c: Seq<char>)
    requires
        contains_spec(a, b),
        contains_spec(b, c),
    ensures
        contains_spec(a, c),
{
    let i = choose|i: int| occurs_at(a, b, i);
    let j = choose|j: int| occurs_at(b, c, j);
    assert forall|k: int| 0 <= k < c.len() implies a.subrange(i + j, i + j + c.len())[k] == c[k] by {
        assert(a.subrange(i, i + b.len())[j + k] == b[j + k]);
        assert(b.subrange(j, j + c.len())[k] == c[k]);
    }
    assert(a.subrange(i + j, i + j + c.len()) =~= c);
    assert(occurs_at(a, c, i + j));
}

// ---------------------------------------------------------------------------
// Reading hexadecimal back
// ---------------------------------------------------------------------------

/// The value of an upper-case hexadecimal digit: `0`-`9` are 0 to 9,
/// `A`-`F` are 10 to 15.
pub open spec fn hex_char_value(c: char) -> int {
    if '0' <= c && c <= '9' {
        c as int - '0' as int
    } else {
        c as int - 'A' as int + 10
    }
}

/// The four hexadecimal digits of a port read back to the port: each is one
/// of `0`-`9` or `A`-`F` (never lower case), the most significant first.
pub proof fn law_hex4_reads_back(v: u16)
    ensures
        hex4_spec(v).len() == 4,
        forall|k: int|
            0 <= k < 4 ==> ('0' <= #[trigger] hex4_spec(v)[k] && hex4_spec(v)[k] <= '9') || ('A'
                <= hex4_spec(v)[k] && hex4_spec(v)[k] <= 'F'),
        v as int == 4096 * hex_char_value(hex4_spec(v)[0]) + 256 * hex_char_value(hex4_spec(v)[1])
            + 16 * hex_char_value(hex4_spec(v)[2]) + hex_char_value(hex4_spec(v)[3]),
{
    let d0 = v / 4096;
    let d1 = (v / 256) % 16;
    let d2 = (v / 16) % 16;
    let d3 = v % 16;
    assert(d0 < 16 && d1 < 16 && d2 < 16 && d3 < 16 && v == d0 * 4096 + d1 * 256 + d2 * 16 + d3)
        by (bit_vector)
        requires
            d0 == v / 4096,
            d1 == (v / 256) % 16,
            d2 == (v / 16) % 16,
            d3 == v % 16,
    ;
    lemma_hex_digit_reads_back(d0 as int);
    lemma_hex_digit_reads_back(d1 as int);
    lemma_hex_digit_reads_back(d2 as int);
    lemma_hex_digit_reads_back(d3 as int);
}

proof fn lemma_hex_digit_reads_back(d: int)
    requires
        0 <= d < 16,
    ensures
        ('0' <= hex_digit(d) && hex_digit(d) <= '9') || ('A' <= hex_digit(d) && hex_digit(d) <= 'F'),
        hex_char_value(hex_digit(d)) == d,
{
}

// ---------------------------------------------------------------------------
// What trimming removes
// ---------------------------------------------------------------------------

proof fn lemma_trim_start_skips(pre: Seq<char>, x: Seq<char>)
    requires
        forall|k: int| 0 <= k < pre.len() ==> is_ws(#[trigger] pre[k]),
        x.len() > 0,
        !is_ws(x[0]),
    ensures
        trim_start(pre + x) == x,
    decreases pre.len(),
{
    if pre.len() == 0 {
        assert(pre + x =~= x);
    } else {
        assert((pre + x)[0] == pre[0]);
        assert((pre + x).drop_first() =~= pre.drop_first() + x);
        lemma_trim_start_skips(pre.drop_first(), x);
    }
}

proof fn lemma_trim_end_skips(x: Seq<char>, post: Seq<char>)
    requires
        forall|k: int| 0 <= k < post.len() ==> is_ws(#[trigger] post[k]),
        x.len() > 0,
        !is_ws(x.last()),
    ensures
        trim_end(x + post) == x,
    decreases post.len(),
{
    if post.len() == 0 {
        assert(x + post =~= x);
    } else {
        assert((x + post).last() == post.last());
        assert((x + post).drop_last() =~= x + post.drop_last());
        lemma_trim_end_skips(x, post.drop_last());
    }
}

/// Trimming removes exactly the white space around a text: white space
/// `pre`, then a text `w` that begins and ends with a character that is not
/// white space, then white space `post`, trim to `w`.
pub proof fn law_trim_drops_surrounding_space(pre: Seq<char>, w: Seq<char>, post: Seq<char>)
    requires
        forall|k: int| 0 <= k < pre.len() ==> is_ws(#[trigger] pre[k]),
        forall|k: int| 0 <= k < post.len() ==> is_ws(#[trigger] post[k]),
        w.len() > 0,
        !is_ws(w[0]),
        !is_ws(w.last()),
    ensures
        trim_spec(pre + w + post) == w,
{
    assert(pre + w + post =~= pre + (w + post));
    assert((w + post)[0] == w[0]);
    lemma_trim_start_skips(pre, w + post);
    lemma_trim_end_skips(w, post);
}

} // verus!
