//! Character-level text handling shared by the parsers: whitespace, ASCII
//! case, trimming, word splitting, searching and decimal numbers, all over
//! sequences of `char`.
use vstd::prelude::*;

verus! {

// ---------------------------------------------------------------- classes

/// Unicode White_Space, the set that `char::is_whitespace` tests.
pub open spec fn is_ws(c: char) -> bool {
    let u = c as u32;
    ||| 9 <= u <= 13
    ||| u == 32
    ||| u == 0x85
    ||| u == 0xa0
    ||| u == 0x1680
    ||| 0x2000 <= u <= 0x200a
    ||| u == 0x2028
    ||| u == 0x2029
    ||| u == 0x202f
    ||| u == 0x205f
    ||| u == 0x3000
}

pub open spec fn is_upper(c: char) -> bool {
    65 <= (c as u32) <= 90
}

pub open spec fn is_lower(c: char) -> bool {
    97 <= (c as u32) <= 122
}

pub open spec fn is_alpha(c: char) -> bool {
    is_upper(c) || is_lower(c)
}

pub open spec fn is_digit(c: char) -> bool {
    48 <= (c as u32) <= 57
}

pub open spec fn is_alnum(c: char) -> bool {
    is_alpha(c) || is_digit(c)
}

pub open spec fn to_lower(c: char) -> char {
    if is_upper(c) { ((c as u32) + 32) as char } else { c }
}

pub open spec fn to_upper(c: char) -> char {
    if is_lower(c) { ((c as u32) - 32) as char } else { c }
}

pub open spec fn lower(s: Seq<char>) -> Seq<char> {
    s.map_values(|c: char| to_lower(c))
}

pub open spec fn upper(s: Seq<char>) -> Seq<char> {
    s.map_values(|c: char| to_upper(c))
}

/// ASCII case-insensitive equality, as `str::eq_ignore_ascii_case`.
pub open spec fn eq_ci(a: Seq<char>, b: Seq<char>) -> bool {
    lower(a) == lower(b)
}

pub fn is_whitespace(c: char) -> (b: bool)
    ensures
        b == is_ws(c),
{
    let u = c as u32;
    (9 <= u && u <= 13) || u == 32 || u == 0x85 || u == 0xa0 || u == 0x1680 || (0x2000 <= u
        && u <= 0x200a) || u == 0x2028 || u == 0x2029 || u == 0x202f || u == 0x205f || u
        == 0x3000
}

pub fn is_ascii_alpha(c: char) -> (b: bool)
    ensures
        b == is_alpha(c),
{
    let u = c as u32;
    (65 <= u && u <= 90) || (97 <= u && u <= 122)
}

pub fn is_ascii_digit(c: char) -> (b: bool)
    ensures
        b == is_digit(c),
{
    let u = c as u32;
    48 <= u && u <= 57
}

pub fn is_ascii_alnum(c: char) -> (b: bool)
    ensures
        b == is_alnum(c),
{
    is_ascii_alpha(c) || is_ascii_digit(c)
}

pub fn ascii_lower(c: char) -> (r: char)
    ensures
        r == to_lower(c),
{
    let u = c as u32;
    if 65 <= u && u <= 90 {
        let b = (u + 32) as u8;
        b as char
    } else {
        c
    }
}

pub fn ascii_upper(c: char) -> (r: char)
    ensures
        r == to_upper(c),
{
    let u = c as u32;
    if 97 <= u && u <= 122 {
        let b = (u - 32) as u8;
        b as char
    } else {
        c
    }
}


// ---------------------------------------------------------------- strings

/// The characters of a string slice, in order.
pub fn chars_of(s: &str) -> (v: Vec<char>)
    ensures
        v@ == s@,
{
    let mut v: Vec<char> = Vec::new();
    for c in it: s.chars()
        invariant
            v@ == it.seq().take(it.index() as int),
    {
        v.push(c);
    }
    v
}

/// `String::push`: appends one character.
#[verifier::external_body]
fn string_push(s: &mut String, c: char)
    ensures
        final(s)@ == old(s)@.push(c),
{
    s.push(c);
}

/// A `String` holding exactly the given characters.
pub fn string_of(v: &Vec<char>) -> (s: String)
    ensures
        s@ == v@,
{
    let mut s = String::new();
    let n = v.len();
    for i in 0..n
        invariant
            n == v@.len(),
            s@ == v@.take(i as int),
    {
        string_push(&mut s, v[i]);
        assert(v@.take(i + 1) == v@.take(i as int).push(v@[i as int]));
    }
    assert(v@.take(n as int) == v@);
    s
}

/// The characters of `v` from `a` up to (not including) `b`.
pub fn slice_of(v: &Vec<char>, a: usize, b: usize) -> (r: Vec<char>)
    requires
        a <= b <= v@.len(),
    ensures
        r@ == v@.subrange(a as int, b as int),
{
    let mut r: Vec<char> = Vec::new();
    let mut i = a;
    while i < b
        invariant
            a <= i <= b <= v@.len(),
            r@ == v@.subrange(a as int, i as int),
        decreases b - i,
    {
        r.push(v[i]);
        i += 1;
        assert(v@.subrange(a as int, i as int) == v@.subrange(a as int, i - 1).push(v@[i - 1]));
    }
    r
}

pub fn append_chars(r: &mut Vec<char>, v: &Vec<char>)
    ensures
        final(r)@ == old(r)@ + v@,
{
    let n = v.len();
    for i in 0..n
        invariant
            n == v@.len(),
            r@ == old(r)@ + v@.take(i as int),
    {
        r.push(v[i]);
        assert(v@.take(i + 1) == v@.take(i as int).push(v@[i as int]));
    }
    assert(v@.take(n as int) == v@);
}

pub fn append_str(r: &mut Vec<char>, s: &str)
    ensures
        final(r)@ == old(r)@ + s@,
{
    let v = chars_of(s);
    append_chars(r, &v);
}

pub fn seq_eq(a: &Vec<char>, b: &Vec<char>) -> (e: bool)
    ensures
        e == (a@ == b@),
{
    if a.len() != b.len() {
        return false;
    }
    let n = a.len();
    for i in 0..n
        invariant
            n == a@.len() == b@.len(),
            forall|k: int| 0 <= k < i ==> a@[k] == b@[k],
    {
        if a[i] != b[i] {
            return false;
        }
    }
    assert(a@ == b@);
    true
}

pub fn seq_eq_str(a: &Vec<char>, s: &str) -> (e: bool)
    ensures
        e == (a@ == s@),
{
    let b = chars_of(s);
    seq_eq(a, &b)
}

pub fn lower_of(v: &Vec<char>) -> (r: Vec<char>)
    ensures
        r@ == lower(v@),
{
    let mut r: Vec<char> = Vec::new();
    let n = v.len();
    for i in 0..n
        invariant
            n == v@.len(),
            r@ == lower(v@.take(i as int)),
    {
        r.push(ascii_lower(v[i]));
        assert(lower(v@.take(i + 1)) == lower(v@.take(i as int)).push(to_lower(v@[i as int])));
    }
    assert(v@.take(n as int) == v@);
    r
}

pub fn upper_of(v: &Vec<char>) -> (r: Vec<char>)
    ensures
        r@ == upper(v@),
{
    let mut r: Vec<char> = Vec::new();
    let n = v.len();
    for i in 0..n
        invariant
            n == v@.len(),
            r@ == upper(v@.take(i as int)),
    {
        r.push(ascii_upper(v[i]));
        assert(upper(v@.take(i + 1)) == upper(v@.take(i as int)).push(to_upper(v@[i as int])));
    }
    assert(v@.take(n as int) == v@);
    r
}

/// `str::eq_ignore_ascii_case`.
pub fn eq_ignore_case(a: &Vec<char>, b: &Vec<char>) -> (e: bool)
    ensures
        e == eq_ci(a@, b@),
{
    let la = lower_of(a);
    let lb = lower_of(b);
    seq_eq(&la, &lb)
}

pub fn eq_ignore_case_str(a: &Vec<char>, s: &str) -> (e: bool)
    ensures
        e == eq_ci(a@, s@),
{
    let b = chars_of(s);
    eq_ignore_case(a, &b)
}

pub open spec fn starts_with(s: Seq<char>, p: Seq<char>) -> bool {
    p.len() <= s.len() && s.take(p.len() as int) == p
}

pub open spec fn ends_with(s: Seq<char>, p: Seq<char>) -> bool {
    p.len() <= s.len() && s.skip(s.len() - p.len()) == p
}

pub fn has_prefix(s: &Vec<char>, p: &Vec<char>) -> (b: bool)
    ensures
        b == starts_with(s@, p@),
{
    if p.len() > s.len() {
        return false;
    }
    let n = p.len();
    for i in 0..n
        invariant
            n == p@.len() <= s@.len(),
            forall|k: int| 0 <= k < i ==> s@[k] == p@[k],
    {
        if s[i] != p[i] {
            return false;
        }
    }
    assert(s@.take(n as int) == p@);
    true
}

pub fn has_suffix(s: &Vec<char>, p: &Vec<char>) -> (b: bool)
    ensures
        b == ends_with(s@, p@),
{
    if p.len() > s.len() {
        return false;
    }
    let n = p.len();
    let off = s.len() - n;
    for i in 0..n
        invariant
            n == p@.len() <= s@.len(),
            off + n == s.len(),
            forall|k: int| 0 <= k < i ==> s@[off + k] == p@[k],
    {
        if s[off + i] != p[i] {
            return false;
        }
    }
    assert(s@.skip(off as int) == p@);
    true
}

/// `str::strip_prefix`.
pub fn strip_prefix(s: &Vec<char>, p: &str) -> (r: Option<Vec<char>>)
    ensures
        r is Some <==> starts_with(s@, p@),
        r matches Some(rest) ==> rest@ == s@.skip(p@.len() as int),
{
    let pv = chars_of(p);
    if has_prefix(s, &pv) {
        Some(slice_of(s, pv.len(), s.len()))
    } else {
        None
    }
}

// ---------------------------------------------------------------- trimming

/// The character sets that the parsers trim away.
#[derive(Clone, Copy, PartialEq, Eq, Debug)]
pub enum CharSet {
    /// Unicode whitespace.
    Space,
    /// One given character.
    One(char),
    /// Dashes, colons, angle brackets and quotes round a heal target.
    Punct,
    /// Anything but an ASCII letter or digit.
    NonAlnum,
    /// Anything but an ASCII letter.
    NonAlpha,
    /// Double and single quotes.
    Quotes,
}

impl CharSet {
    pub open spec fn has(self, c: char) -> bool {
        match self {
            CharSet::Space => is_ws(c),
            CharSet::One(x) => c == x,
            CharSet::Punct => c == '-' || c == '\u{2014}' || c == ':' || c == '<' || c == '>'
                || c == '"' || c == '\'',
            CharSet::NonAlnum => !is_alnum(c),
            CharSet::NonAlpha => !is_alpha(c),
            CharSet::Quotes => c == '"' || c == '\'',
        }
    }

    pub fn contains(&self, c: char) -> (b: bool)
        ensures
            b == self.has(c),
    {
        match self {
            CharSet::Space => is_whitespace(c),
            CharSet::One(x) => c == *x,
            CharSet::Punct => c == '-' || c == '\u{2014}' || c == ':' || c == '<' || c == '>'
                || c == '"' || c == '\'',
            CharSet::NonAlnum => !is_ascii_alnum(c),
            CharSet::NonAlpha => !is_ascii_alpha(c),
            CharSet::Quotes => c == '"' || c == '\'',
        }
    }
}

/// How many leading characters belong to the set.
pub open spec fn lead_len(s: Seq<char>, set: CharSet) -> nat
    decreases s.len(),
{
    if s.len() > 0 && set.has(s[0]) {
        1 + lead_len(s.drop_first(), set)
    } else {
        0
    }
}

/// How many trailing characters belong to the set.
pub open spec fn trail_len(s: Seq<char>, set: CharSet) -> nat
    decreases s.len(),
{
    if s.len() > 0 && set.has(s.last()) {
        1 + trail_len(s.drop_last(), set)
    } else {
        0
    }
}

pub open spec fn trim_start(s: Seq<char>, set: CharSet) -> Seq<char> {
    s.skip(lead_len(s, set) as int)
}

pub open spec fn trim_end(s: Seq<char>, set: CharSet) -> Seq<char> {
    s.take(s.len() - trail_len(s, set))
}

/// `str::trim_matches`: the set stripped from both ends.
pub open spec fn trim_by(s: Seq<char>, set: CharSet) -> Seq<char> {
    trim_end(trim_start(s, set), set)
}

/// `str::trim`.
pub open spec fn trim(s: Seq<char>) -> Seq<char> {
    trim_by(s, CharSet::Space)
}

/// The leading run of characters from `set` is `i` long when the first `i`
/// are in the set and the next one, if any, is not.
pub proof fn lemma_lead_len(s: Seq<char>, set: CharSet, i: int)
    requires
        0 <= i <= s.len(),
        forall|k: int| 0 <= k < i ==> set.has(#[trigger] s[k]),
        i == s.len() || !set.has(s[i]),
    ensures
        lead_len(s, set) == i,
        lead_len(s, set) <= s.len(),
    decreases i,
{
    if i > 0 {
        assert(set.has(s[0]));
        let t = s.drop_first();
        assert forall|k: int| 0 <= k < i - 1 implies set.has(#[trigger] t[k]) by {
            assert(t[k] == s[k + 1]);
        }
        if i < s.len() {
            assert(t[i - 1] == s[i]);
        }
        lemma_lead_len(t, set, i - 1);
    }
}

/// The trailing run of characters from `set` is `i` long when the last `i`
/// are in the set and the one before them, if any, is not.
pub proof fn lemma_trail_len(s: Seq<char>, set: CharSet, i: int)
    requires
        0 <= i <= s.len(),
        forall|k: int| s.len() - i <= k < s.len() ==> set.has(#[trigger] s[k]),
        i == s.len() || !set.has(s[s.len() - i - 1]),
    ensures
        trail_len(s, set) == i,
    decreases i,
{
    if i > 0 {
        assert(set.has(s[s.len() - 1]));
        let t = s.drop_last();
        assert forall|k: int| t.len() - (i - 1) <= k < t.len() implies set.has(#[trigger] t[k]) by {
            assert(t[k] == s[k]);
        }
        if i < s.len() {
            assert(t[t.len() - (i - 1) - 1] == s[s.len() - i - 1]);
        }
        lemma_trail_len(t, set, i - 1);
    }
}

pub fn trim_start_of(v: &Vec<char>, set: CharSet) -> (r: Vec<char>)
    ensures
        r@ == trim_start(v@, set),
{
    let mut i: usize = 0;
    while i < v.len() && set.contains(v[i])
        invariant
            i <= v@.len(),
            forall|k: int| 0 <= k < i ==> set.has(#[trigger] v@[k]),
        decreases v@.len() - i,
    {
        i += 1;
    }
    proof {
        lemma_lead_len(v@, set, i as int);
    }
    slice_of(v, i, v.len())
}

pub fn trim_end_of(v: &Vec<char>, set: CharSet) -> (r: Vec<char>)
    ensures
        r@ == trim_end(v@, set),
{
    let mut i: usize = 0;
    while i < v.len() && set.contains(v[v.len() - 1 - i])
        invariant
            i <= v@.len(),
            forall|k: int| v@.len() - i <= k < v@.len() ==> set.has(#[trigger] v@[k]),
        decreases v@.len() - i,
    {
        i += 1;
    }
    proof {
        lemma_trail_len(v@, set, i as int);
    }
    slice_of(v, 0, v.len() - i)
}

pub fn trim_by_of(v: &Vec<char>, set: CharSet) -> (r: Vec<char>)
    ensures
        r@ == trim_by(v@, set),
{
    let a = trim_start_of(v, set);
    trim_end_of(&a, set)
}

pub fn trim_of(v: &Vec<char>) -> (r: Vec<char>)
    ensures
        r@ == trim(v@),
{
    trim_by_of(v, CharSet::Space)
}

// ---------------------------------------------------------------- words

/// Scans left to right: the finished pieces, and the piece still being read.
/// Characters of `sep` end a piece; runs of them yield no empty pieces.
pub open spec fn piece_scan(s: Seq<char>, sep: CharSet) -> (Seq<Seq<char>>, Seq<char>)
    decreases s.len(),
{
    if s.len() == 0 {
        (Seq::empty(), Seq::empty())
    } else {
        let (done, cur) = piece_scan(s.drop_last(), sep);
        let c = s.last();
        if sep.has(c) {
            if cur.len() > 0 {
                (done.push(cur), Seq::empty())
            } else {
                (done, Seq::empty())
            }
        } else {
            (done, cur.push(c))
        }
    }
}

/// The maximal runs of characters outside `sep`.
pub open spec fn pieces(s: Seq<char>, sep: CharSet) -> Seq<Seq<char>> {
    let (done, cur) = piece_scan(s, sep);
    if cur.len() > 0 {
        done.push(cur)
    } else {
        done
    }
}

/// `str::split_whitespace`.
pub open spec fn words(s: Seq<char>) -> Seq<Seq<char>> {
    pieces(s, CharSet::Space)
}

proof fn lemma_scan_plain(t: Seq<char>, sep: CharSet)
    requires
        forall|k: int| 0 <= k < t.len() ==> !sep.has(#[trigger] t[k]),
    ensures
        piece_scan(t, sep) == (Seq::<Seq<char>>::empty(), t),
    decreases t.len(),
{
    if t.len() > 0 {
        lemma_scan_plain(t.drop_last(), sep);
        assert(t.drop_last().push(t.last()) =~= t);
    }
}

proof fn lemma_scan_done_grows(s: Seq<char>, e: Seq<char>, sep: CharSet)
    ensures
        piece_scan(s, sep).0.len() <= piece_scan(s + e, sep).0.len(),
        forall|k: int| 0 <= k < piece_scan(s, sep).0.len() ==> #[trigger] piece_scan(s + e, sep).0[k] == piece_scan(s, sep).0[k],
    decreases e.len(),
{
    if e.len() > 0 {
        lemma_scan_done_grows(s, e.drop_last(), sep);
        assert((s + e).drop_last() =~= s + e.drop_last());
    } else {
        assert(s + e =~= s);
    }
}

/// A text that opens with a run of non-separators and then a separator has
/// that run as its first piece, whatever follows.
pub proof fn lemma_first_piece(t: Seq<char>, c: char, rest: Seq<char>, sep: CharSet)
    requires
        t.len() > 0,
        forall|k: int| 0 <= k < t.len() ==> !sep.has(#[trigger] t[k]),
        sep.has(c),
    ensures
        pieces(t.push(c) + rest, sep).len() > 0,
        pieces(t.push(c) + rest, sep)[0] == t,
{
    lemma_scan_plain(t, sep);
    assert(t.push(c).drop_last() =~= t);
    assert(piece_scan(t.push(c), sep).0 =~= seq![t]);
    lemma_scan_done_grows(t.push(c), rest, sep);
    let d = piece_scan(t.push(c) + rest, sep).0;
    assert(d[0] == t);
}

pub open spec fn words_view(w: Seq<Vec<char>>) -> Seq<Seq<char>> {
    w.map_values(|x: Vec<char>| x@)
}

pub fn split_by(v: &Vec<char>, sep: CharSet) -> (r: Vec<Vec<char>>)
    ensures
        words_view(r@) == pieces(v@, sep),
{
    let mut done: Vec<Vec<char>> = Vec::new();
    let mut cur: Vec<char> = Vec::new();
    let n = v.len();
    for i in 0..n
        invariant
            n == v@.len(),
            (words_view(done@), cur@) == piece_scan(v@.take(i as int), sep),
    {
        let c = v[i];
        assert(v@.take(i + 1).drop_last() == v@.take(i as int));
        if sep.contains(c) {
            if cur.len() > 0 {
                let w = cur;
                done.push(w);
                cur = Vec::new();
                assert(words_view(done@) == words_view(done@.drop_last()).push(w@));
            } else {
                cur = Vec::new();
            }
        } else {
            cur.push(c);
        }
    }
    assert(v@.take(n as int) == v@);
    if cur.len() > 0 {
        let w = cur;
        done.push(w);
        assert(words_view(done@) == words_view(done@.drop_last()).push(w@));
    }
    done
}

pub fn split_words(v: &Vec<char>) -> (r: Vec<Vec<char>>)
    ensures
        words_view(r@) == words(v@),
{
    split_by(v, CharSet::Space)
}

// ---------------------------------------------------------------- search

pub open spec fn matches_at(s: Seq<char>, p: Seq<char>, i: int) -> bool {
    0 <= i && i + p.len() <= s.len() && s.subrange(i, i + p.len()) == p
}

pub open spec fn find_from(s: Seq<char>, p: Seq<char>, i: int) -> Option<int>
    decreases s.len() + 1 - i,
{
    if i < 0 || i + p.len() > s.len() {
        None
    } else if matches_at(s, p, i) {
        Some(i)
    } else {
        find_from(s, p, i + 1)
    }
}

/// `str::find`, counted in characters: where `p` first occurs in `s`.
pub open spec fn find(s: Seq<char>, p: Seq<char>) -> Option<int> {
    find_from(s, p, 0)
}

/// A match found from `i` on starts at `i` or later, and `p` is there.
pub proof fn lemma_find_from_bounds(s: Seq<char>, p: Seq<char>, i: int)
    ensures
        find_from(s, p, i) matches Some(k) ==> i <= k && matches_at(s, p, k),
    decreases s.len() + 1 - i,
{
    if !(i < 0 || i + p.len() > s.len()) && !matches_at(s, p, i) {
        lemma_find_from_bounds(s, p, i + 1);
    }
}

pub fn match_at(s: &Vec<char>, p: &Vec<char>, i: usize) -> (b: bool)
    ensures
        b == matches_at(s@, p@, i as int),
{
    if i > s.len() || p.len() > s.len() - i {
        return false;
    }
    let n = p.len();
    let mut k: usize = 0;
    while k < n
        invariant
            n == p@.len(),
            i + n <= s.len(),
            k <= n,
            forall|j: int| 0 <= j < k ==> s@[i + j] == p@[j],
        decreases n - k,
    {
        if s[i + k] != p[k] {
            assert(s@.subrange(i as int, i + n)[k as int] != p@[k as int]);
            return false;
        }
        k += 1;
    }
    assert(s@.subrange(i as int, i + n) == p@);
    true
}

pub fn find_in(s: &Vec<char>, p: &Vec<char>) -> (r: Option<usize>)
    ensures
        r matches Some(k) ==> find(s@, p@) == Some(k as int),
        r is None ==> find(s@, p@) is None,
{
    if p.len() > s.len() {
        return None;
    }
    let last = s.len() - p.len();
    let mut i: usize = 0;
    loop
        invariant
            i <= last,
            last + p@.len() == s@.len(),
            find(s@, p@) == find_from(s@, p@, i as int),
        decreases last - i,
    {
        if match_at(s, p, i) {
            return Some(i);
        }
        if i == last {
            assert(find_from(s@, p@, i + 1) is None);
            return None;
        }
        i += 1;
    }
}

pub fn find_str(s: &Vec<char>, p: &str) -> (r: Option<usize>)
    ensures
        r matches Some(k) ==> find(s@, p@) == Some(k as int),
        r is None ==> find(s@, p@) is None,
{
    let pv = chars_of(p);
    find_in(s, &pv)
}

// ---------------------------------------------------------------- numbers

pub open spec fn digit_val(c: char) -> nat {
    ((c as u32) - 48) as nat
}

pub open spec fn all_digits(s: Seq<char>) -> bool {
    forall|k: int| 0 <= k < s.len() ==> is_digit(#[trigger] s[k])
}

/// The value of a run of decimal digits.
pub open spec fn digits_value(s: Seq<char>) -> nat
    decreases s.len(),
{
    if s.len() == 0 {
        0
    } else {
        digits_value(s.drop_last()) * 10 + digit_val(s.last())
    }
}

/// The digits after an optional leading `+`.
pub open spec fn unsigned_part(s: Seq<char>) -> Seq<char> {
    if s.len() > 0 && s[0] == '+' { s.drop_first() } else { s }
}

/// `u32::from_str`: an optional `+`, then at least one digit, in range.
pub open spec fn parse_u32(s: Seq<char>) -> Option<u32> {
    let d = unsigned_part(s);
    if d.len() > 0 && all_digits(d) && digits_value(d) <= 0xffff_ffff {
        Some(digits_value(d) as u32)
    } else {
        None
    }
}

/// A prefix of a run of digits reads as no more than the whole run.
pub proof fn lemma_digits_value_mono(s: Seq<char>, i: int)
    requires
        0 <= i <= s.len(),
        all_digits(s),
    ensures
        digits_value(s.take(i)) <= digits_value(s),
    decreases s.len() - i,
{
    if i < s.len() {
        lemma_digits_value_mono(s, i + 1);
        assert(s.take(i + 1).drop_last() == s.take(i));
    } else {
        assert(s.take(i) == s);
    }
}

pub fn parse_u32_of(v: &Vec<char>) -> (r: Option<u32>)
    ensures
        r == parse_u32(v@),
{
    let start: usize = if v.len() > 0 && v[0] == '+' { 1 } else { 0 };
    let ghost d = unsigned_part(v@);
    assert(d == v@.skip(start as int));
    if start >= v.len() {
        return None;
    }
    if !all_digits_from(v, start) {
        return None;
    }
    let mut acc: u64 = 0;
    let mut i = start;
    while i < v.len()
        invariant
            start <= i <= v@.len(),
            d == v@.skip(start as int),
            d == unsigned_part(v@),
            all_digits(d),
            v@.subrange(start as int, i as int) == d.take(i - start),
            acc == digits_value(d.take(i - start)),
            acc <= u32::MAX,
        decreases v@.len() - i,
    {
        let c = v[i];
        assert(d[i - start] == c);
        let dv = (c as u32 - 48) as u64;
        assert(d.take(i + 1 - start).drop_last() == d.take(i - start));
        let next = acc * 10 + dv;
        assert(d.take(i + 1 - start).last() == c);
        assert(next == digits_value(d.take(i + 1 - start)));
        i += 1;
        if next > 0xffff_ffff {
            proof {
                lemma_digits_value_mono(d, i - start);
            }
            return None;
        }
        acc = next;
        assert(v@.subrange(start as int, i as int) == d.take(i - start));
    }
    assert(d.take(v@.len() - start) == d);
    Some(acc as u32)
}

/// `u64::from_str`: an optional `+`, then at least one digit, in range.
pub open spec fn parse_u64(s: Seq<char>) -> Option<u64> {
    let d = unsigned_part(s);
    if d.len() > 0 && all_digits(d) && digits_value(d) <= u64::MAX {
        Some(digits_value(d) as u64)
    } else {
        None
    }
}

pub fn parse_u64_of(v: &Vec<char>) -> (r: Option<u64>)
    ensures
        r == parse_u64(v@),
{
    let start: usize = if v.len() > 0 && v[0] == '+' { 1 } else { 0 };
    let ghost d = unsigned_part(v@);
    assert(d == v@.skip(start as int));
    if start >= v.len() {
        return None;
    }
    if !all_digits_from(v, start) {
        return None;
    }
    let mut acc: u128 = 0;
    let mut i = start;
    while i < v.len()
        invariant
            start <= i <= v@.len(),
            d == v@.skip(start as int),
            d == unsigned_part(v@),
            all_digits(d),
            acc == digits_value(d.take(i - start)),
            acc <= u64::MAX,
        decreases v@.len() - i,
    {
        let c = v[i];
        assert(d[i - start] == c);
        let dv = (c as u32 - 48) as u128;
        assert(d.take(i + 1 - start).drop_last() == d.take(i - start));
        let next = acc * 10 + dv;
        assert(d.take(i + 1 - start).last() == c);
        assert(next == digits_value(d.take(i + 1 - start)));
        i += 1;
        if next > 0xffff_ffff_ffff_ffff {
            proof {
                lemma_digits_value_mono(d, i - start);
            }
            return None;
        }
        acc = next;
    }
    assert(d.take(v@.len() - start) == d);
    Some(acc as u64)
}

/// Whether every character from `i` on is a digit.
fn all_digits_from(v: &Vec<char>, i: usize) -> (b: bool)
    requires
        i <= v@.len(),
    ensures
        b == all_digits(v@.skip(i as int)),
{
    let mut k = i;
    while k < v.len()
        invariant
            i <= k <= v@.len(),
            forall|j: int| i <= j < k ==> is_digit(#[trigger] v@[j]),
        decreases v@.len() - k,
    {
        if !is_ascii_digit(v[k]) {
            assert(v@.skip(i as int)[k - i] == v@[k as int]);
            return false;
        }
        k += 1;
    }
    assert forall|j: int| 0 <= j < v@.skip(i as int).len() implies is_digit(
        #[trigger] v@.skip(i as int)[j],
    ) by {
        assert(v@.skip(i as int)[j] == v@[i + j]);
    }
    true
}

pub open spec fn digit_char(d: nat) -> char {
    (48 + d) as char
}

/// Decimal digits of a number, as `to_string` writes them.
pub open spec fn dec(n: nat) -> Seq<char>
    decreases n,
{
    if n < 10 {
        seq![digit_char(n)]
    } else {
        dec(n / 10).push(digit_char(n % 10))
    }
}

/// `format!("{n:03}")`: decimal, left-padded with zeros to three places.
pub open spec fn pad3(n: nat) -> Seq<char> {
    let d = dec(n);
    if d.len() >= 3 {
        d
    } else {
        Seq::new((3 - d.len()) as nat, |i: int| '0') + d
    }
}

/// How many digits a number is written with: one below ten, two below a
/// hundred, at least three from a hundred on.
pub proof fn lemma_dec_len(n: nat)
    ensures
        dec(n).len() >= 1,
        n < 10 ==> dec(n).len() == 1,
        10 <= n < 100 ==> dec(n).len() == 2,
        100 <= n ==> dec(n).len() >= 3,
    decreases n,
{
    if n >= 10 {
        lemma_dec_len(n / 10);
    }
}

pub fn dec_of(n: u64) -> (r: Vec<char>)
    ensures
        r@ == dec(n as nat),
    decreases n,
{
    let d = ((n % 10) as u8 + 48u8) as char;
    if n < 10 {
        let mut r: Vec<char> = Vec::new();
        r.push(d);
        assert(r@ == seq![digit_char(n as nat)]);
        r
    } else {
        let mut r = dec_of(n / 10);
        r.push(d);
        r
    }
}

pub fn pad3_of(n: u64) -> (r: Vec<char>)
    ensures
        r@ == pad3(n as nat),
{
    let d = dec_of(n);
    proof {
        lemma_dec_len(n as nat);
    }
    if d.len() >= 3 {
        d
    } else {
        let mut r: Vec<char> = Vec::new();
        let zeros = 3 - d.len();
        let mut i: usize = 0;
        while i < zeros
            invariant
                i <= zeros,
                r@ == Seq::new(i as nat, |k: int| '0'),
            decreases zeros - i,
        {
            r.push('0');
            i += 1;
            assert(r@ =~= Seq::new(i as nat, |k: int| '0'));
        }
        append_chars(&mut r, &d);
        r
    }
}


/// Filtering a sequence ordered by `key` keeps it in order.
pub proof fn lemma_filter_ascending<A>(s: Seq<A>, key: spec_fn(A) -> int, p: spec_fn(A) -> bool)
    requires
        forall|i: int, j: int| 0 <= i < j < s.len() ==> key(s[i]) < key(s[j]),
    ensures
        forall|i: int, j: int|
            0 <= i < j < s.filter(p).len() ==> key(#[trigger] s.filter(p)[i]) < key(#[trigger] s.filter(p)[j]),
    decreases s.len(),
{
    reveal(Seq::filter);
    if s.len() > 0 {
        let pre = s.drop_last();
        let x = s.last();
        lemma_filter_ascending(pre, key, p);
        let r = pre.filter(p);
        assert forall|k: int| 0 <= k < r.len() implies key(#[trigger] r[k]) < key(x) by {
            assert(r.contains(r[k]));
            pre.lemma_filter_contains_rev(p, r[k]);
            let j = choose|j: int| 0 <= j < pre.len() && pre[j] == r[k];
            assert(pre[j] == s[j]);
        }
        let out = s.filter(p);
        assert forall|i: int, j: int| 0 <= i < j < out.len() implies key(#[trigger] out[i]) < key(#[trigger] out[j]) by {
            assert(out[i] == r[i]);
            if j < r.len() {
                assert(out[j] == r[j]);
            }
        }
    }
}
}
