use vstd::prelude::*;

verus! {

/// The characters of `s`, in order.
pub fn chars_of(s: &str) -> (r: Vec<char>)
    ensures
        r@ == s@,
{
    broadcast use vstd::string::group_string_axioms;
    let mut r: Vec<char> = Vec::new();
    for c in it: s.chars()
        invariant
            r@ == it.seq().take(it.index()),
            it.seq() == s@,
    {
        r.push(c);
    }
    r
}

/// The number of characters (not bytes) in the longest common prefix of `a` and of `b` read
/// from `start`. The radix tree walks keys as characters, so it measures shared prefixes in
/// characters.
pub fn common_prefix_chars(a: &Vec<char>, b: &Vec<char>, start: usize) -> (r: usize)
    requires
        start <= b@.len(),
    ensures
        r <= a@.len(),
        start + r <= b@.len(),
        a@.take(r as int) == b@.subrange(start as int, start + r),
        r < a@.len() && start + r < b@.len() ==> a@[r as int] != b@[start + r],
{
    let mut n: usize = 0;
    while n < a.len() && n < b.len() - start && a[n] == b[start + n]
        invariant
            n <= a@.len(),
            start + n <= b@.len(),
            a@.take(n as int) == b@.subrange(start as int, start + n),
        decreases a@.len() - n,
    {
        assert(a@.take(n + 1) =~= a@.take(n as int).push(a@[n as int]));
        assert(b@.subrange(start as int, start + n + 1) =~= b@.subrange(start as int, start + n).push(b@[start + n]));
        n = n + 1;
    }
    n
}

/// The smaller of two natural numbers.
pub open spec fn min_nat(a: nat, b: nat) -> nat {
    if a <= b { a } else { b }
}

/// Levenshtein distance: the least number of single-character insertions, deletions
/// and substitutions that turn `a` into `b`.
pub open spec fn edit_distance(a: Seq<char>, b: Seq<char>) -> nat
    decreases a.len() + b.len(),
{
    if a.len() == 0 {
        b.len()
    } else if b.len() == 0 {
        a.len()
    } else {
        min_nat(
            min_nat(edit_distance(a.drop_last(), b) + 1, edit_distance(a, b.drop_last()) + 1),
            edit_distance(a.drop_last(), b.drop_last()) + if a.last() == b.last() { 0nat } else { 1nat },
        )
    }
}

/// The distance never exceeds the longer length.
pub proof fn lemma_edit_distance_bound(a: Seq<char>, b: Seq<char>)
    ensures
        edit_distance(a, b) <= if a.len() >= b.len() { a.len() } else { b.len() },
    decreases a.len() + b.len(),
{
    if a.len() > 0 && b.len() > 0 {
        lemma_edit_distance_bound(a.drop_last(), b.drop_last());
    }
}

/// The distance is zero exactly between equal sequences.
pub proof fn lemma_edit_distance_zero(a: Seq<char>, b: Seq<char>)
    ensures
        edit_distance(a, b) == 0 <==> a == b,
    decreases a.len() + b.len(),
{
    if a.len() > 0 && b.len() > 0 {
        lemma_edit_distance_zero(a.drop_last(), b.drop_last());
        if a == b {
            assert(a.drop_last() == b.drop_last());
        }
        if edit_distance(a, b) == 0 {
            assert(a =~= a.drop_last().push(a.last()));
            assert(b =~= b.drop_last().push(b.last()));
        }
    } else if a.len() == 0 && b.len() == 0 {
        assert(a =~= b);
    }
}

/// Row `j` of the dynamic-programming table for `a` against `q`: the distance from `a` to `q`'s first `j` characters.
pub open spec fn dp_row_matches(row: Seq<usize>, a: Seq<char>, q: Seq<char>) -> bool {
    &&& row.len() == q.len() + 1
    &&& forall|j: int| 0 <= j <= q.len() ==> #[trigger] row[j] == edit_distance(a, q.take(j))
}

/// Extending `a` by one character never brings a row below a common lower bound.
pub proof fn lemma_row_lower_bound_push(a: Seq<char>, c: char, q: Seq<char>, m: nat)
    requires
        forall|j: int| 0 <= j <= q.len() ==> m <= #[trigger] edit_distance(a, q.take(j)),
    ensures
        forall|j: int| 0 <= j <= q.len() ==> m <= #[trigger] edit_distance(a.push(c), q.take(j)),
{
    assert forall|j: int| 0 <= j <= q.len() implies m <= #[trigger] edit_distance(a.push(c), q.take(j)) by {
        lemma_row_lower_bound_push_at(a, c, q, m, j);
    }
}

proof fn lemma_row_lower_bound_push_at(a: Seq<char>, c: char, q: Seq<char>, m: nat, j: int)
    requires
        forall|j: int| 0 <= j <= q.len() ==> m <= #[trigger] edit_distance(a, q.take(j)),
        0 <= j <= q.len(),
    ensures
        m <= edit_distance(a.push(c), q.take(j)),
    decreases j,
{
    let ap = a.push(c);
    assert(ap.drop_last() =~= a);
    if j == 0 {
        assert(m <= edit_distance(a, q.take(0)));
        assert(q.take(0).len() == 0);
    } else {
        lemma_row_lower_bound_push_at(a, c, q, m, j - 1);
        assert(q.take(j).drop_last() =~= q.take(j - 1));
        assert(m <= edit_distance(a, q.take(j)));
        assert(m <= edit_distance(a, q.take(j - 1)));
    }
}

/// A common lower bound of a row bounds the distance of every extension of `a` to `q`.
pub proof fn lemma_row_lower_bound_extend(a: Seq<char>, s: Seq<char>, q: Seq<char>, m: nat)
    requires
        forall|j: int| 0 <= j <= q.len() ==> m <= #[trigger] edit_distance(a, q.take(j)),
    ensures
        m <= edit_distance(a + s, q),
    decreases s.len(),
{
    if s.len() == 0 {
        assert(a + s =~= a);
        assert(q.take(q.len() as int) =~= q);
    } else {
        let s0 = s.drop_last();
        assert forall|j: int| 0 <= j <= q.len() implies m <= #[trigger] edit_distance(a + s0, q.take(j)) by {
            assert forall|j2: int| 0 <= j2 <= q.take(j).len() implies m <= #[trigger] edit_distance(a, q.take(j).take(j2)) by {
                assert(q.take(j).take(j2) =~= q.take(j2));
            }
            lemma_row_lower_bound_extend(a, s0, q.take(j), m);
        }
        lemma_row_lower_bound_push(a + s0, s.last(), q, m);
        assert((a + s0).push(s.last()) =~= a + s);
        assert(q.take(q.len() as int) =~= q);
    }
}

/// Computes the next row of the table after reading `c`, and the least value of that row.
pub(crate) fn next_dp_row(row: &Vec<usize>, c: char, query: &Vec<char>, Ghost(a): Ghost<Seq<char>>) -> (r: (Vec<usize>, usize))
    requires
        dp_row_matches(row@, a, query@),
        a.len() + 1 <= usize::MAX,
        query@.len() < usize::MAX,
    ensures
        dp_row_matches(r.0@, a.push(c), query@),
        forall|j: int| 0 <= j <= query@.len() ==> r.1 <= #[trigger] r.0@[j],
        exists|j: int| 0 <= j <= query@.len() && r.1 == #[trigger] r.0@[j],
{
    let ghost ap = a.push(c);
    assert(ap.drop_last() =~= a);
    let qlen = query.len();
    let mut new_row: Vec<usize> = Vec::new();
    assert(row@[0] == edit_distance(a, query@.take(0)));
    assert(query@.take(0).len() == 0);
    new_row.push(row[0] + 1);
    assert(new_row@[0] == edit_distance(ap, query@.take(0)));
    let mut m = new_row[0];
    let ghost mut mk: int = 0;
    let mut j: usize = 0;
    while j < qlen
        invariant
            qlen == query@.len(),
            qlen < usize::MAX,
            a.len() + 1 <= usize::MAX,
            ap == a.push(c),
            ap.drop_last() == a,
            dp_row_matches(row@, a, query@),
            j <= qlen,
            new_row@.len() == j + 1,
            forall|k: int| 0 <= k <= j ==> #[trigger] new_row@[k] == edit_distance(ap, query@.take(k)),
            forall|k: int| 0 <= k <= j ==> m <= #[trigger] new_row@[k],
            0 <= mk <= j,
            m == new_row@[mk],
        decreases qlen - j,
    {
        let cost: usize = if c == query[j] { 0 } else { 1 };
        proof {
            lemma_edit_distance_bound(a, query@.take(j as int));
            lemma_edit_distance_bound(a, query@.take(j + 1));
        }
        let up = row[j + 1];
        let left = new_row[j];
        let best = if left < up { left } else { up };
        let diag = row[j] + cost;
        let val = if diag < best + 1 { diag } else { best + 1 };
        proof {
            let b = query@.take(j + 1);
            assert(b.drop_last() =~= query@.take(j as int));
            assert(b.last() == query@[j as int]);
            assert(ap.last() == c);
        }
        new_row.push(val);
        if val < m {
            m = val;
            proof {
                mk = j + 1;
            }
        }
        j = j + 1;
    }
    let r = (new_row, m);
    assert(r.0@[mk] == r.1 && 0 <= mk <= query@.len());
    r
}

/// Unicode White_Space, which `char::is_whitespace` tests.
pub open spec fn spec_is_whitespace(c: char) -> bool {
    ||| '\u{9}' <= c <= '\u{d}'
    ||| c == ' '
    ||| c == '\u{85}'
    ||| c == '\u{a0}'
    ||| c == '\u{1680}'
    ||| '\u{2000}' <= c <= '\u{200a}'
    ||| c == '\u{2028}'
    ||| c == '\u{2029}'
    ||| c == '\u{202f}'
    ||| c == '\u{205f}'
    ||| c == '\u{3000}'
}

/// ASCII punctuation, which `char::is_ascii_punctuation` tests.
pub open spec fn spec_is_ascii_punctuation(c: char) -> bool {
    ||| '!' <= c <= '/'
    ||| ':' <= c <= '@'
    ||| '[' <= c <= '`'
    ||| '{' <= c <= '~'
}

/// Characters at which the default tokenizer splits text.
pub open spec fn is_separator(c: char) -> bool {
    spec_is_whitespace(c) || spec_is_ascii_punctuation(c)
}

/// The maximal runs of non-separator characters of `s`, in order.
pub open spec fn tokens_of(s: Seq<char>) -> Seq<Seq<char>>
    decreases s.len(),
{
    if s.len() == 0 {
        Seq::empty()
    } else {
        let prev = s.drop_last();
        let c = s.last();
        if is_separator(c) {
            tokens_of(prev)
        } else if prev.len() > 0 && !is_separator(prev.last()) {
            let ts = tokens_of(prev);
            ts.update(ts.len() - 1, ts.last().push(c))
        } else {
            tokens_of(prev).push(seq![c])
        }
    }
}

/// Whether `c` is Unicode white space.
pub fn is_whitespace(c: char) -> (r: bool)
    ensures
        r == spec_is_whitespace(c),
{
    ('\u{9}' <= c && c <= '\u{d}') || c == ' ' || c == '\u{85}' || c == '\u{a0}' || c == '\u{1680}'
        || ('\u{2000}' <= c && c <= '\u{200a}') || c == '\u{2028}' || c == '\u{2029}' || c == '\u{202f}'
        || c == '\u{205f}' || c == '\u{3000}'
}

/// Whether `c` is ASCII punctuation.
pub fn is_ascii_punctuation(c: char) -> (r: bool)
    ensures
        r == spec_is_ascii_punctuation(c),
{
    ('!' <= c && c <= '/') || (':' <= c && c <= '@') || ('[' <= c && c <= '`') || ('{' <= c && c <= '~')
}

/// Splits `text` at white space and ASCII punctuation, dropping empty pieces.
pub fn default_tokenize(text: &str) -> (r: Vec<String>)
    ensures
        r@.map_values(|t: String| t@) == tokens_of(text@),
{
    let cs = chars_of(text);
    let n = cs.len();
    let mut out: Vec<String> = Vec::new();
    let mut start: usize = 0;
    let mut i: usize = 0;
    while i < n
        invariant
            n == cs@.len(),
            cs@ == text@,
            start <= i <= n,
            start < i ==> !is_separator(cs@[i - 1]),
            start == i ==> (i == 0 || is_separator(cs@[i - 1])),
            out@.map_values(|t: String| t@) + (if start < i { seq![cs@.subrange(start as int, i as int)] } else { Seq::empty() })
                == tokens_of(cs@.take(i as int)),
        decreases n - i,
    {
        let c = cs[i];
        let ghost prev_out = out@.map_values(|t: String| t@);
        assert(cs@.take(i + 1).drop_last() =~= cs@.take(i as int));
        assert(cs@.take(i + 1).last() == c);
        if is_whitespace(c) || is_ascii_punctuation(c) {
            if start < i {
                let piece = String::from_str(text.substring_char(start, i));
                out.push(piece);
                assert(out@.map_values(|t: String| t@) =~= prev_out.push(cs@.subrange(start as int, i as int)));
            }
            start = i + 1;
            i = i + 1;
            assert(out@.map_values(|t: String| t@) + Seq::<Seq<char>>::empty() =~= out@.map_values(|t: String| t@));
        } else {
            if start < i {
                assert(cs@.take(i as int).last() == cs@[i - 1]);
                let ghost ts = tokens_of(cs@.take(i as int));
                assert(ts =~= prev_out.push(cs@.subrange(start as int, i as int)));
                assert(cs@.subrange(start as int, i + 1) =~= cs@.subrange(start as int, i as int).push(c));
                assert(prev_out + seq![cs@.subrange(start as int, i + 1)] =~= ts.update(ts.len() - 1, ts.last().push(c)));
            } else {
                if i > 0 {
                    assert(cs@.take(i as int).last() == cs@[i - 1]);
                }
                assert(prev_out + Seq::<Seq<char>>::empty() =~= prev_out);
                assert(cs@.subrange(start as int, i + 1) =~= seq![c]);
                assert(prev_out + seq![cs@.subrange(start as int, i + 1)] =~= tokens_of(cs@.take(i as int)).push(seq![c]));
            }
            i = i + 1;
        }
    }
    if start < n {
        let piece = String::from_str(text.substring_char(start, n));
        let ghost prev_out = out@.map_values(|t: String| t@);
        out.push(piece);
        assert(out@.map_values(|t: String| t@) =~= prev_out.push(cs@.subrange(start as int, n as int)));
        assert(out@.map_values(|t: String| t@) =~= prev_out + seq![cs@.subrange(start as int, n as int)]);
    } else {
        assert(out@.map_values(|t: String| t@) + Seq::<Seq<char>>::empty() =~= out@.map_values(|t: String| t@));
    }
    assert(cs@.take(n as int) =~= text@);
    out
}

/// The lower-case form of `s`, as `str::to_lowercase` gives it (Unicode case mapping).
pub uninterp spec fn lowercase_of(s: Seq<char>) -> Seq<char>;

/// `c` is an ASCII character.
pub open spec fn is_ascii_char(c: char) -> bool {
    (c as u32) < 128
}

/// Every character of `s` is ASCII.
pub open spec fn is_ascii_text(s: Seq<char>) -> bool {
    forall|i: int| 0 <= i < s.len() ==> is_ascii_char(#[trigger] s[i])
}

/// `c` with an ASCII upper-case letter replaced by its lower-case letter.
pub open spec fn ascii_lower(c: char) -> char {
    if 'A' <= c <= 'Z' {
        ((c as u32) + 32) as char
    } else {
        c
    }
}

/// `s` with each ASCII upper-case letter replaced by its lower-case letter.
pub open spec fn ascii_lowercase(s: Seq<char>) -> Seq<char> {
    s.map_values(|c: char| ascii_lower(c))
}

/// Code points in blocks where each capital letter at an even code point is followed by its
/// small letter: Latin Extended-A (but for İ, ı, ĸ, ŉ and the letters from Ĺ to ň), the
/// paired Cyrillic letters and Latin Extended Additional (but for ẖ to ẟ).
pub open spec fn is_even_odd_pair(u: u32) -> bool {
    ||| 0x100 <= u <= 0x12f
    ||| 0x132 <= u <= 0x137
    ||| 0x14a <= u <= 0x177
    ||| 0x460 <= u <= 0x481
    ||| 0x48a <= u <= 0x4bf
    ||| 0x4d0 <= u <= 0x4ff
    ||| 0x1e00 <= u <= 0x1e95
    ||| 0x1ea0 <= u <= 0x1eff
}

/// Code points in Latin Extended-A where each capital letter at an odd code point is followed
/// by its small letter: Ĺ to ň and Ź to ž.
pub open spec fn is_odd_even_pair(u: u32) -> bool {
    ||| 0x139 <= u <= 0x148
    ||| 0x179 <= u <= 0x17e
}

/// The lower case of `c` where the Unicode case mapping of `c` is one character that this
/// table gives: the capitals of Basic Latin, Latin-1, Latin Extended-A, Latin Extended
/// Additional, Greek (with Σ taken to σ), Cyrillic, Armenian and the full-width Latin letters
/// map to their small letters, and the small
/// letters and other characters of those blocks, kana, CJK ideographs and Hangul syllables
/// map to themselves. `None` for any other character.
pub open spec fn known_lower(c: char) -> Option<char> {
    let u = c as u32;
    if 'A' <= c <= 'Z' {
        Some((u + 32) as char)
    } else if u < 0x80 {
        Some(c)
    } else if 0xc0 <= u <= 0xde && u != 0xd7 {
        Some((u + 32) as char)
    } else if u <= 0xff {
        Some(c)
    } else if is_even_odd_pair(u) {
        Some(if u % 2 == 0 { (u + 1) as char } else { c })
    } else if is_odd_even_pair(u) {
        Some(if u % 2 == 1 { (u + 1) as char } else { c })
    } else if u == 0x131 || u == 0x138 || u == 0x149 || u == 0x17f {
        Some(c)
    } else if u == 0x178 {
        Some('\u{ff}')
    } else if u == 0x386 {
        Some('\u{3ac}')
    } else if 0x388 <= u <= 0x38a {
        Some((u + 37) as char)
    } else if u == 0x38c {
        Some('\u{3cc}')
    } else if 0x38e <= u <= 0x38f {
        Some((u + 63) as char)
    } else if 0x391 <= u <= 0x3ab && u != 0x3a2 {
        Some((u + 32) as char)
    } else if 0x3ac <= u <= 0x3ce {
        Some(c)
    } else if 0x400 <= u <= 0x40f {
        Some((u + 80) as char)
    } else if 0x410 <= u <= 0x42f {
        Some((u + 32) as char)
    } else if 0x430 <= u <= 0x45f {
        Some(c)
    } else if 0x531 <= u <= 0x556 {
        Some((u + 48) as char)
    } else if 0x561 <= u <= 0x587 {
        Some(c)
    } else if 0x3040 <= u <= 0x30ff || 0x4e00 <= u <= 0x9fff || 0xac00 <= u <= 0xd7a3 {
        Some(c)
    } else if 0xff21 <= u <= 0xff3a {
        Some((u + 32) as char)
    } else if 0xff41 <= u <= 0xff5a {
        Some(c)
    } else {
        None
    }
}

/// What lower-casing turns `c` into on its own: the table's character where `known_lower`
/// has one, else the lower case of the one-character text `c`.
pub open spec fn char_lower(c: char) -> Seq<char> {
    match known_lower(c) {
        Some(l) => seq![l],
        None => lowercase_of(seq![c]),
    }
}

/// `s` lower-cased character by character, each character as `char_lower` gives it.
pub open spec fn lowered(s: Seq<char>) -> Seq<char>
    decreases s.len(),
{
    if s.len() == 0 {
        Seq::empty()
    } else {
        lowered(s.drop_last()) + char_lower(s.last())
    }
}

/// `c` with the final small sigma ς taken as σ.
pub open spec fn fold_sigma_char(c: char) -> char {
    if c == '\u{3c2}' {
        '\u{3c3}'
    } else {
        c
    }
}

/// `s` with each final small sigma ς taken as σ: the one choice `str::to_lowercase` makes
/// from a character's neighbours is between these two for Σ.
pub open spec fn fold_sigma(s: Seq<char>) -> Seq<char> {
    s.map_values(|c: char| fold_sigma_char(c))
}

/// Calls `str::to_lowercase`; its result is named `lowercase_of` of the input. It lower-cases
/// character by character, each character as `char::to_lowercase` maps it, except that Σ
/// becomes σ or, at the end of a word, ς (the documentation's "ὈΔΥΣΣΕΎΣ" example); so up to
/// that choice the result is `lowered` of the input, and on ASCII text it lower-cases A to Z
/// one for one and keeps every other character (the documentation's `"HELLO"` example).
/// Where the Unicode mapping is not in the `known_lower` table it is left unsaid, beyond its
/// being the mapping of the character on its own.
#[verifier::external_body]
fn to_lowercase(s: &str) -> (r: String)
    ensures
        r@ == lowercase_of(s@),
        is_ascii_text(s@) ==> r@ == ascii_lowercase(s@),
        fold_sigma(r@) == fold_sigma(lowered(s@)),
{
    s.to_lowercase()
}

/// The default term processing: lower-casing.
pub fn default_process_term(term: &str) -> (r: String)
    ensures
        r@ == lowercase_of(term@),
        is_ascii_text(term@) ==> r@ == ascii_lowercase(term@),
        fold_sigma(r@) == fold_sigma(lowered(term@)),
{
    to_lowercase(term)
}

/// `c` is a capital letter of Basic Latin, Latin-1, Latin Extended-A (but İ), the paired
/// Latin Extended Additional letters, Greek, Cyrillic, Armenian or the full-width Latin
/// letters.
pub open spec fn is_capital_letter(c: char) -> bool {
    let u = c as u32;
    ||| 0x41 <= u <= 0x5a
    ||| 0xc0 <= u <= 0xde && u != 0xd7
    ||| is_even_odd_pair(u) && u % 2 == 0
    ||| is_odd_even_pair(u) && u % 2 == 1
    ||| u == 0x178
    ||| u == 0x386 || 0x388 <= u <= 0x38a || u == 0x38c || u == 0x38e || u == 0x38f
    ||| 0x391 <= u <= 0x3ab && u != 0x3a2
    ||| 0x400 <= u <= 0x42f
    ||| 0x531 <= u <= 0x556
    ||| 0xff21 <= u <= 0xff3a
}

/// `c` is a small letter of Basic Latin, Latin-1, the paired Latin Extended-A and Latin
/// Extended Additional letters, Greek, Cyrillic, Armenian or the full-width Latin letters.
pub open spec fn is_small_letter(c: char) -> bool {
    let u = c as u32;
    ||| 0x61 <= u <= 0x7a
    ||| 0xe0 <= u <= 0xff && u != 0xf7
    ||| is_even_odd_pair(u) && u % 2 == 1
    ||| is_odd_even_pair(u) && u % 2 == 0
    ||| 0x3ac <= u <= 0x3ce
    ||| 0x430 <= u <= 0x45f
    ||| 0x561 <= u <= 0x586
    ||| 0xff41 <= u <= 0xff5a
}

/// Every character of `s` is one whose lower case the `known_lower` table gives.
pub open spec fn in_known_case_ranges(s: Seq<char>) -> bool {
    forall|i: int| 0 <= i < s.len() ==> (#[trigger] known_lower(s[i])) is Some
}

proof fn lemma_lowered_known(s: Seq<char>)
    requires
        in_known_case_ranges(s),
    ensures
        lowered(s).len() == s.len(),
        forall|i: int| 0 <= i < s.len() ==> lowered(s)[i] == (#[trigger] known_lower(s[i]))->0,
    decreases s.len(),
{
    if s.len() > 0 {
        let d = s.drop_last();
        assert forall|i: int| 0 <= i < d.len() implies (#[trigger] known_lower(d[i])) is Some by {
            assert(d[i] == s[i]);
        }
        lemma_lowered_known(d);
        assert(known_lower(s[s.len() - 1]) is Some);
        assert forall|i: int| 0 <= i < s.len() implies lowered(s)[i] == (#[trigger] known_lower(s[i]))->0 by {
            if i < s.len() - 1 {
                assert(d[i] == s[i]);
                assert(known_lower(d[i]) == known_lower(s[i]));
            }
        }
    }
}

/// Lower-casing text of the `known_lower` table's characters (Latin, Greek, Cyrillic,
/// Armenian, full-width, kana, CJK or Hangul) keeps its length and leaves no capital letter:
/// each capital becomes a small letter, and every other character stays as it is (a final ς
/// read as σ).
pub proof fn law_process_term_lowercases_letters(s: Seq<char>)
    requires
        in_known_case_ranges(s),
    ensures
        fold_sigma(lowered(s)).len() == s.len(),
        forall|i: int| 0 <= i < s.len() ==> !is_capital_letter(#[trigger] fold_sigma(lowered(s))[i]),
        forall|i: int| 0 <= i < s.len() && is_capital_letter(s[i]) ==> is_small_letter(#[trigger] fold_sigma(lowered(s))[i]),
        forall|i: int| 0 <= i < s.len() && !is_capital_letter(s[i]) ==> #[trigger] fold_sigma(lowered(s))[i] == fold_sigma_char(s[i]),
{
    lemma_lowered_known(s);
    let l = lowered(s);
    assert forall|i: int| 0 <= i < s.len() implies {
        let r = #[trigger] fold_sigma(l)[i];
        &&& !is_capital_letter(r)
        &&& is_capital_letter(s[i]) ==> is_small_letter(r)
        &&& !is_capital_letter(s[i]) ==> r == fold_sigma_char(s[i])
    } by {
        assert(known_lower(s[i]) is Some);
        assert(l[i] == known_lower(s[i])->0);
    }
}

/// Lower-casing ignores case: two texts of the table's characters whose characters agree
/// once lower-cased, place by place, lower-case to the same text (a final ς read as σ).
pub proof fn law_process_term_ignores_case(a: Seq<char>, b: Seq<char>)
    requires
        in_known_case_ranges(a),
        in_known_case_ranges(b),
        a.len() == b.len(),
        forall|i: int| 0 <= i < a.len() ==> known_lower(#[trigger] a[i]) == known_lower(b[i]),
    ensures
        fold_sigma(lowered(a)) == fold_sigma(lowered(b)),
{
    lemma_lowered_known(a);
    lemma_lowered_known(b);
    assert forall|i: int| 0 <= i < a.len() implies lowered(a)[i] == lowered(b)[i] by {
        assert(known_lower(a[i]) == known_lower(b[i]));
    }
    assert(lowered(a) =~= lowered(b));
}

/// Term processing ignores the case of ASCII letters: two ASCII terms whose characters agree
/// once their letters are lower-cased are processed to the same term, and that term has no
/// upper-case ASCII letter left.
pub proof fn law_process_term_ignores_ascii_case(a: Seq<char>, b: Seq<char>)
    requires
        is_ascii_text(a),
        is_ascii_text(b),
        a.len() == b.len(),
        forall|i: int| 0 <= i < a.len() ==> ascii_lower(#[trigger] a[i]) == ascii_lower(b[i]),
    ensures
        ascii_lowercase(a) == ascii_lowercase(b),
        forall|i: int| 0 <= i < a.len() ==> !('A' <= #[trigger] ascii_lowercase(a)[i] <= 'Z'),
{
    assert(ascii_lowercase(a) =~= ascii_lowercase(b));
}

/// `c` is a decimal digit.
pub open spec fn is_digit(c: char) -> bool {
    '0' <= c <= '9'
}

/// The value of a decimal digit.
pub open spec fn digit_value(c: char) -> int {
    c as int - '0' as int
}

/// Every character of `s` is a decimal digit.
pub open spec fn all_digits(s: Seq<char>) -> bool {
    forall|i: int| 0 <= i < s.len() ==> #[trigger] is_digit(s[i])
}

/// The value of `s` read as decimal digits.
pub open spec fn decimal_value(s: Seq<char>) -> int
    decreases s.len(),
{
    if s.len() == 0 {
        0
    } else {
        decimal_value(s.drop_last()) * 10 + digit_value(s.last())
    }
}

/// What `u32::from_str` reads from `s`: an optional `+` followed by one or more decimal
/// digits and nothing else, whose value fits in a `u32`.
pub open spec fn parsed_u32(s: Seq<char>) -> Option<u32> {
    let ds = if s.len() > 0 && s[0] == '+' { s.drop_first() } else { s };
    if ds.len() > 0 && all_digits(ds) && decimal_value(ds) <= u32::MAX {
        Some(decimal_value(ds) as u32)
    } else {
        None
    }
}

proof fn lemma_decimal_value_grows(s: Seq<char>, k: int)
    requires
        all_digits(s),
        0 <= k <= s.len(),
    ensures
        0 <= decimal_value(s.take(k)) <= decimal_value(s),
    decreases s.len(),
{
    if k < s.len() {
        assert(all_digits(s.drop_last())) by {
            assert forall|i: int| 0 <= i < s.drop_last().len() implies #[trigger] is_digit(s.drop_last()[i]) by {
                assert(is_digit(s[i]));
            }
        }
        lemma_decimal_value_grows(s.drop_last(), k);
        assert(s.drop_last().take(k) =~= s.take(k));
        lemma_decimal_value_grows(s.drop_last(), s.len() - 1);
        assert(s.drop_last().take(s.len() - 1) =~= s.drop_last());
        assert(is_digit(s[s.len() - 1]));
    } else {
        assert(s.take(k) =~= s);
        if s.len() > 0 {
            lemma_decimal_value_grows(s.drop_last(), s.len() - 1);
            assert(s.drop_last().take(s.len() - 1) =~= s.drop_last());
            assert(is_digit(s[s.len() - 1]));
        }
    }
}

/// Reads `s` as a `u32` the way `u32::from_str` does: an optional `+`, then one or more
/// decimal digits and nothing else, with a value that fits.
pub fn parse_u32(s: &str) -> (r: Option<u32>)
    ensures
        r == parsed_u32(s@),
{
    let cs = chars_of(s);
    let mut start: usize = 0;
    if cs.len() > 0 && cs[0] == '+' {
        start = 1;
    }
    let ghost ds = if s@.len() > 0 && s@[0] == '+' { s@.drop_first() } else { s@ };
    assert(ds =~= cs@.subrange(start as int, cs@.len() as int));
    if start >= cs.len() {
        return None;
    }
    let mut acc: u64 = 0;
    let mut i: usize = start;
    while i < cs.len()
        invariant
            start <= i <= cs@.len(),
            start < cs@.len(),
            ds == cs@.subrange(start as int, cs@.len() as int),
            ds == if s@.len() > 0 && s@[0] == '+' { s@.drop_first() } else { s@ },
            acc == decimal_value(cs@.subrange(start as int, i as int)),
            acc <= u32::MAX,
            all_digits(cs@.subrange(start as int, i as int)),
        decreases cs@.len() - i,
    {
        let c = cs[i];
        let ghost prefix = cs@.subrange(start as int, i as int);
        let ghost next = cs@.subrange(start as int, i + 1);
        assert(next.drop_last() =~= prefix);
        assert(next.last() == c);
        if c < '0' || c > '9' {
            assert(!is_digit(c));
            assert(ds[i - start] == c);

            assert(!is_digit(ds[i - start]));
            return None;
        }
        let d = (c as u32) - ('0' as u32);
        assert(d == digit_value(c));
        acc = acc * 10 + d as u64;
        assert(all_digits(next)) by {
            assert forall|x: int| 0 <= x < next.len() implies #[trigger] is_digit(next[x]) by {
                if x < prefix.len() {
                    assert(next[x] == prefix[x]);
                }
            }
        }
        if acc > 0xFFFF_FFFF {
            proof {
                if all_digits(ds) {
                    lemma_decimal_value_grows(ds, i + 1 - start);
                    assert(ds.take(i + 1 - start) =~= next);
                }
            }
            return None;
        }
        i = i + 1;
    }
    assert(cs@.subrange(start as int, i as int) =~= ds);
    Some(acc as u32)
}

/// Whether `a` and `b` hold the same characters.
pub fn same_text(a: &str, b: &str) -> (r: bool)
    ensures
        r == (a@ == b@),
{
    let x = chars_of(a);
    let y = chars_of(b);
    if x.len() != y.len() {
        return false;
    }
    let mut i: usize = 0;
    while i < x.len()
        invariant
            x@ == a@,
            y@ == b@,
            x@.len() == y@.len(),
            i <= x@.len(),
            forall|j: int| 0 <= j < i ==> x@[j] == y@[j],
        decreases x@.len() - i,
    {
        if x[i] != y[i] {
            assert(a@[i as int] != b@[i as int]);
            return false;
        }
        i = i + 1;
    }
    assert(x@ =~= y@);
    true
}

/// `s` without its trailing white space.
pub open spec fn trim_end(s: Seq<char>) -> Seq<char>
    decreases s.len(),
{
    if s.len() > 0 && spec_is_whitespace(s.last()) {
        trim_end(s.drop_last())
    } else {
        s
    }
}

/// `s` without its leading white space.
pub open spec fn trim_start(s: Seq<char>) -> Seq<char>
    decreases s.len(),
{
    if s.len() > 0 && spec_is_whitespace(s[0]) {
        trim_start(s.drop_first())
    } else {
        s
    }
}

/// `s` without leading and trailing white space, as `str::trim` gives it.
pub open spec fn trimmed(s: Seq<char>) -> Seq<char> {
    trim_start(trim_end(s))
}

/// The pieces of `s` between commas, empty ones included.
pub open spec fn comma_pieces(s: Seq<char>) -> Seq<Seq<char>>
    decreases s.len(),
{
    if s.len() == 0 {
        seq![Seq::empty()]
    } else {
        let p = comma_pieces(s.drop_last());
        if s.last() == ',' {
            p.push(Seq::empty())
        } else {
            p.update(p.len() - 1, p.last().push(s.last()))
        }
    }
}

proof fn lemma_comma_pieces_len(s: Seq<char>)
    ensures
        comma_pieces(s).len() >= 1,
    decreases s.len(),
{
    if s.len() > 0 {
        lemma_comma_pieces_len(s.drop_last());
    }
}

/// The characters of `s` between `lo` and `hi`, trimmed, as a string.
fn trimmed_piece(s: &str, cs: &Vec<char>, lo: usize, hi: usize) -> (r: String)
    requires
        cs@ == s@,
        lo <= hi <= cs@.len(),
    ensures
        r@ == trimmed(cs@.subrange(lo as int, hi as int)),
{
    let ghost p = cs@.subrange(lo as int, hi as int);
    let mut e: usize = hi;
    assert(p.take((e - lo) as int) =~= p);
    while e > lo && is_whitespace(cs[e - 1])
        invariant
            lo <= e <= hi,
            p == cs@.subrange(lo as int, hi as int),
            hi <= cs@.len(),
            trim_end(p) == trim_end(p.take((e - lo) as int)),
        decreases e - lo,
    {
        let ghost q = p.take((e - lo) as int);
        assert(q.last() == cs@[e - 1]);
        assert(q.drop_last() =~= p.take((e - 1 - lo) as int));
        e = e - 1;
    }
    let ghost q = p.take((e - lo) as int);
    assert(trim_end(q) == q) by {
        if q.len() > 0 {
            assert(q.last() == cs@[e - 1]);
        }
    }
    let mut b: usize = lo;
    assert(q.skip(0) =~= q);
    while b < e && is_whitespace(cs[b])
        invariant
            lo <= b <= e,
            e <= hi,
            hi <= cs@.len(),
            q == cs@.subrange(lo as int, e as int),
            trim_start(q) == trim_start(q.skip((b - lo) as int)),
        decreases e - b,
    {
        let ghost r = q.skip((b - lo) as int);
        assert(r[0] == cs@[b as int]);
        assert(r.drop_first() =~= q.skip((b + 1 - lo) as int));
        b = b + 1;
    }
    let ghost r = q.skip((b - lo) as int);
    assert(trim_start(r) == r) by {
        if r.len() > 0 {
            assert(r[0] == cs@[b as int]);
        }
    }
    assert(r =~= cs@.subrange(b as int, e as int));
    String::from_str(s.substring_char(b, e))
}

/// The comma-separated items of `s`, each trimmed of white space, empty ones included.
pub fn split_list(s: &str) -> (r: Vec<String>)
    ensures
        r@.map_values(|t: String| t@) == comma_pieces(s@).map_values(|p: Seq<char>| trimmed(p)),
{
    let cs = chars_of(s);
    let n = cs.len();
    let mut out: Vec<String> = Vec::new();
    let mut start: usize = 0;
    let mut i: usize = 0;
    assert(cs@.take(0) =~= Seq::<char>::empty());
    assert(cs@.subrange(0, 0) =~= Seq::<char>::empty());
    while i < n
        invariant
            n == cs@.len(),
            cs@ == s@,
            start <= i <= n,
            comma_pieces(cs@.take(i as int)).len() == out@.len() + 1,
            forall|k: int| 0 <= k < out@.len() ==> (#[trigger] out@[k])@ == trimmed(comma_pieces(cs@.take(i as int))[k]),
            comma_pieces(cs@.take(i as int)).last() == cs@.subrange(start as int, i as int),
        decreases n - i,
    {
        let c = cs[i];
        let ghost before = comma_pieces(cs@.take(i as int));
        assert(cs@.take(i + 1).drop_last() =~= cs@.take(i as int));
        assert(cs@.take(i + 1).last() == c);
        proof {
            lemma_comma_pieces_len(cs@.take(i as int));
        }
        if c == ',' {
            let piece = trimmed_piece(s, &cs, start, i);
            let ghost old_out = out@;
            out.push(piece);
            assert(forall|k: int| 0 <= k < old_out.len() ==> out@[k] == old_out[k]);
            start = i + 1;
            assert(cs@.subrange(start as int, i + 1) =~= Seq::<char>::empty());
        } else {
            assert(cs@.subrange(start as int, i + 1) =~= cs@.subrange(start as int, i as int).push(c));
        }
        i = i + 1;
    }
    let piece = trimmed_piece(s, &cs, start, n);
    out.push(piece);
    assert(cs@.take(n as int) =~= s@);
    proof {
        lemma_comma_pieces_len(s@);
    }
    assert(out@.map_values(|t: String| t@) =~= comma_pieces(s@).map_values(|p: Seq<char>| trimmed(p)));
    out
}

/// The decimal digit for `d`, which is below 10.
pub open spec fn digit_char(d: nat) -> char {
    if d == 0 {
        '0'
    } else if d == 1 {
        '1'
    } else if d == 2 {
        '2'
    } else if d == 3 {
        '3'
    } else if d == 4 {
        '4'
    } else if d == 5 {
        '5'
    } else if d == 6 {
        '6'
    } else if d == 7 {
        '7'
    } else if d == 8 {
        '8'
    } else {
        '9'
    }
}

/// The decimal digits of `n`, without leading zeros ("0" for zero).
pub open spec fn decimal_digits(n: nat) -> Seq<char>
    decreases n,
{
    if n < 10 {
        seq![digit_char(n)]
    } else {
        decimal_digits(n / 10).push(digit_char(n % 10))
    }
}

proof fn lemma_decimal_digits(n: nat)
    ensures
        decimal_digits(n).len() > 0,
        all_digits(decimal_digits(n)),
        decimal_value(decimal_digits(n)) == n,
        decimal_digits(n)[0] != '+',
    decreases n,
{
    if n >= 10 {
        lemma_decimal_digits(n / 10);
        let prev = decimal_digits(n / 10);
        let ds = decimal_digits(n);
        assert(ds.drop_last() =~= prev);
        assert forall|i: int| 0 <= i < ds.len() implies #[trigger] is_digit(ds[i]) by {
            if i < prev.len() {
                assert(ds[i] == prev[i]);
                assert(is_digit(prev[i]));
            }
        }
        assert(ds[0] == prev[0]);
    } else {
        assert(decimal_value(decimal_digits(n)) == decimal_value(decimal_digits(n).drop_last()) * 10 + digit_value(digit_char(n)));
        assert(decimal_digits(n).drop_last() =~= Seq::<char>::empty());
    }
}

/// Writing a number in decimal and reading it back gives the number.
pub proof fn lemma_decimal_round_trip(n: u32)
    ensures
        parsed_u32(decimal_digits(n as nat)) == Some(n),
{
    lemma_decimal_digits(n as nat);
}

/// Writes `n` in decimal, without leading zeros.
pub(crate) fn decimal_text(n: u32) -> (r: String)
    ensures
        r@ == decimal_digits(n as nat),
    decreases n,
{
    let digits = "0123456789";
    proof {
        reveal_strlit("0123456789");
    }
    let d: usize = (n % 10) as usize;
    let piece = digits.substring_char(d, d + 1);
    assert(piece@ =~= seq![digit_char(d as nat)]);
    if n < 10 {
        String::from_str(piece)
    } else {
        let mut s = decimal_text(n / 10);
        s.append(piece);
        assert(s@ =~= decimal_digits(n as nat));
        s
    }
}

} // verus!
